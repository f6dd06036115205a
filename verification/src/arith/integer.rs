//! Arbitrary-precision integers.
//!
//! The numbers are `rug::Integer` values. Their arithmetic is performed by
//! that crate; every function in this file states what the corresponding
//! operation of `rug` returns and is taken on trust, not proved.

use rug::ops::Pow;
use rug::rand::RandState;
use rug::Integer;
use vstd::arithmetic::div_mod::lemma_mul_mod_noop_general;
use vstd::arithmetic::div_mod::lemma_small_mod;
use vstd::prelude::*;

verus! {

/// `rug::Integer`, an integer of any size. Nothing is known of a value but
/// the number it holds, [`value_of`].
#[verifier::external_type_specification]
#[verifier::external_body]
pub struct ExInteger(rug::Integer);

/// `rug::rand::RandState`, the state of a random number generator. Nothing
/// is known of a value.
#[verifier::external_type_specification]
#[verifier::external_body]
pub struct ExRandState<'a>(RandState<'a>);

/// The mathematical integer that a big integer holds.
pub uninterp spec fn value_of(i: Integer) -> int;

/// `q` is `a` divided by `m`, rounded towards zero.
pub open spec fn truncated_quotient(a: int, m: int) -> int {
    let aa = if a < 0 { -a } else { a };
    let mm = if m < 0 { -m } else { m };
    if (a < 0) == (m < 0) {
        aa / mm
    } else {
        -(aa / mm)
    }
}

/// `d` divides `a`, for a positive `d`.
pub open spec fn divides(d: int, a: int) -> bool {
    d > 0 && a % d == 0
}

/// `g` is the greatest common divisor of `a` and `b`, which are not both
/// zero.
pub open spec fn is_gcd(g: int, a: int, b: int) -> bool {
    &&& divides(g, a)
    &&& divides(g, b)
    &&& forall|d: int| #[trigger] divides(d, a) && divides(d, b) ==> d <= g
}

/// `i` is the inverse of `a` modulo the positive `m`, reduced to `[0, m)`.
pub open spec fn is_inverse(i: int, a: int, m: int) -> bool {
    0 <= i < m && (a * i) % m == 1int % m
}

/// The greatest common divisor of `a` and `b`; zero where both are zero.
pub open spec fn gcd_of(a: int, b: int) -> int {
    if a == 0 && b == 0 {
        0
    } else {
        choose|g: int| is_gcd(g, a, b)
    }
}

/// The inverse of `a` modulo `m` in `[0, m)`, where there is one.
pub open spec fn inverse_of(a: int, m: int) -> int {
    choose|i: int| is_inverse(i, a, m)
}

/// Two numbers have at most one greatest common divisor.
pub proof fn lemma_gcd_unique(g: int, a: int, b: int)
    requires
        is_gcd(g, a, b),
    ensures
        a != 0 || b != 0,
        gcd_of(a, b) == g,
{
    if a == 0 && b == 0 {
        assert(divides(g + 1, a) && divides(g + 1, b));
    }
    let h = choose|h: int| is_gcd(h, a, b);
    assert(divides(g, a) && divides(g, b));
    assert(divides(h, a) && divides(h, b));
}

/// Where no common divisor of `a` and `n` lies above `c`, the two have a
/// greatest common divisor.
proof fn lemma_gcd_search(a: int, n: int, c: int)
    requires
        n > 0,
        1 <= c,
        forall|d: int| #[trigger] divides(d, a) && divides(d, n) ==> d <= c,
    ensures
        exists|g: int| is_gcd(g, a, n),
    decreases c,
{
    if divides(c, a) && divides(c, n) {
        assert(is_gcd(c, a, n));
    } else if c == 1 {
        assert(divides(1, a) && divides(1, n));
    } else {
        lemma_gcd_search(a, n, c - 1);
    }
}

/// Any number and a positive number have a greatest common divisor, which
/// is positive and divides both.
pub proof fn lemma_gcd_exists(a: int, n: int)
    requires
        n > 0,
    ensures
        is_gcd(gcd_of(a, n), a, n),
{
    assert forall|d: int| #[trigger] divides(d, a) && divides(d, n) implies d <= n by {
        lemma_divisor_bound(d, n);
    }
    lemma_gcd_search(a, n, n);
}

/// A number has at most one inverse in `[0, m)`.
pub proof fn lemma_inverse_unique(i: int, a: int, m: int)
    requires
        m > 0,
        is_inverse(i, a, m),
    ensures
        inverse_of(a, m) == i,
{
    let j = choose|j: int| is_inverse(j, a, m);
    if m > 1 {
        lemma_small_mod(1, m as nat);
        // i = i * (a * j) = j * (a * i) = j, all modulo m
        lemma_mul_mod_noop_general(i, a * j, m);
        lemma_mul_mod_noop_general(j, a * i, m);
        assert(i * (a * j) == j * (a * i)) by (nonlinear_arith);
        assert(i * 1 == i && j * 1 == j);
        lemma_small_mod(i as nat, m as nat);
        lemma_small_mod(j as nat, m as nat);
    }
}

/// A divisor of a positive number is no greater than the number.
pub proof fn lemma_divisor_bound(d: int, n: int)
    requires
        divides(d, n),
        n > 0,
    ensures
        d <= n,
{
    if d > n {
        lemma_small_mod(n as nat, d as nat);
    }
}

/// `Integer::from` on a `u64`: the big integer with the value of `v`.
#[verifier::external_body]
pub(crate) fn integer_from_u64(v: u64) -> (r: Integer)
    ensures
        value_of(r) == v,
{
    Integer::from(v)
}

/// `Integer::clone`: a big integer with the same value.
pub assume_specification[ <Integer as Clone>::clone ](a: &Integer) -> (r: Integer)
    ensures
        value_of(r) == value_of(*a),
;

/// `&Integer + &Integer`, completed: the exact sum.
#[verifier::external_body]
pub(crate) fn integer_add(a: &Integer, b: &Integer) -> (r: Integer)
    ensures
        value_of(r) == value_of(*a) + value_of(*b),
{
    Integer::from(a + b)
}

/// `&Integer - &Integer`, completed: the exact difference.
#[verifier::external_body]
pub(crate) fn integer_sub(a: &Integer, b: &Integer) -> (r: Integer)
    ensures
        value_of(r) == value_of(*a) - value_of(*b),
{
    Integer::from(a - b)
}

/// `&Integer * &Integer`, completed: the exact product.
#[verifier::external_body]
pub(crate) fn integer_mul(a: &Integer, b: &Integer) -> (r: Integer)
    ensures
        value_of(r) == value_of(*a) * value_of(*b),
{
    Integer::from(a * b)
}

/// `Pow<u32>::pow` on an `Integer`: the exact power, with `a^0 = 1`.
#[verifier::external_body]
pub(crate) fn integer_pow(a: &Integer, n: u32) -> (r: Integer)
    ensures
        value_of(r) == vstd::arithmetic::power::pow(value_of(*a), n as nat),
{
    Integer::from(a).pow(n)
}

/// `Integer::gcd`: the greatest common divisor, which is positive unless
/// both numbers are zero; then it is zero.
#[verifier::external_body]
pub(crate) fn integer_gcd(a: &Integer, b: &Integer) -> (r: Integer)
    ensures
        value_of(*a) == 0 && value_of(*b) == 0 ==> value_of(r) == 0,
        value_of(*a) != 0 || value_of(*b) != 0 ==> is_gcd(value_of(r), value_of(*a), value_of(*b)),
{
    Integer::from(a).gcd(b)
}

/// `<` on two `Integer`s: the order of their values.
#[verifier::external_body]
pub(crate) fn integer_lt(a: &Integer, b: &Integer) -> (r: bool)
    ensures
        r == (value_of(*a) < value_of(*b)),
{
    a < b
}

/// `==` on two `Integer`s: equality of their values.
#[verifier::external_body]
pub(crate) fn integer_eq(a: &Integer, b: &Integer) -> (r: bool)
    ensures
        r == (value_of(*a) == value_of(*b)),
{
    a == b
}

/// `Integer::is_even`: whether two divides the value.
#[verifier::external_body]
pub(crate) fn integer_is_even(a: &Integer) -> (r: bool)
    ensures
        r == (value_of(*a) % 2 == 0),
{
    a.is_even()
}

/// `&Integer >> 1`, completed: the value halved, rounded down.
#[verifier::external_body]
pub(crate) fn integer_halve(a: &Integer) -> (r: Integer)
    ensures
        value_of(r) == value_of(*a) / 2,
{
    Integer::from(a >> 1u32)
}

/// `Integer::to_u64`: the value, where it fits in 64 bits without a sign.
#[verifier::external_body]
pub(crate) fn integer_to_u64(a: &Integer) -> (r: Option<u64>)
    ensures
        match r {
            Some(v) => v == value_of(*a),
            None => value_of(*a) < 0 || value_of(*a) > u64::MAX,
        },
{
    a.to_u64()
}

/// The digits of `k` in base two, the most significant first; zero is the
/// single digit `0`.
pub open spec fn binary_digits(k: nat) -> Seq<char>
    decreases k,
{
    if k < 2 {
        seq![if k == 1 { '1' } else { '0' }]
    } else {
        binary_digits(k / 2).push(if k % 2 == 1 { '1' } else { '0' })
    }
}

/// Formatting an `Integer` with `{:b}`: the digits of a number that is not
/// negative, in base two, most significant first, with no prefix.
#[verifier::external_body]
pub(crate) fn integer_binary_digits(a: &Integer) -> (r: Vec<char>)
    requires
        value_of(*a) >= 0,
    ensures
        r@ == binary_digits(value_of(*a) as nat),
{
    format!("{:b}", a).chars().collect()
}

/// `RandState::new` followed by `RandState::seed`: a Mersenne Twister
/// generator, seeded with `seed`.
#[verifier::external_body]
pub(crate) fn seeded_rand_state(seed: &Integer) -> (r: RandState<'static>) {
    let mut rand = RandState::new();
    rand.seed(seed);
    rand
}

/// `Integer::random_below`: some number that is not negative and lies below
/// the positive `bound`. Which one depends on the generator's state.
#[verifier::external_body]
pub(crate) fn integer_random_below(bound: &Integer, rand: &mut RandState<'static>) -> (r: Integer)
    requires
        value_of(*bound) > 0,
    ensures
        0 <= value_of(r) < value_of(*bound),
{
    Integer::from(bound).random_below(rand)
}

} // verus!
