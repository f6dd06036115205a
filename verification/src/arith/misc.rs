//! Sieving, integer logarithms, powers and binary digits.

use crate::arith::integer::{
    binary_digits, integer_add, integer_binary_digits, integer_eq, integer_from_u64,
    integer_halve, integer_is_even, integer_lt, integer_mul, integer_random_below, integer_sub,
    value_of,
};
use rug::rand::RandState;
use rug::Integer;
use vstd::arithmetic::div_mod::{
    lemma_div_decreases, lemma_fundamental_div_mod, lemma_fundamental_div_mod_converse,
};
use vstd::arithmetic::power::{
    lemma_pow0, lemma_pow1, lemma_pow_increases, lemma_pow_multiplies, lemma_pow_positive,
    lemma_square_is_pow2, pow,
};
use vstd::arithmetic::power2::{lemma2_to64, lemma_pow2_strictly_increases, lemma_pow2_unfold, pow2};
use vstd::prelude::*;

verus! {

/// The number that a sequence of binary digits spells, most significant
/// digit first. Any character but `1` counts as a zero.
pub open spec fn digits_value(s: Seq<char>) -> nat
    decreases s.len(),
{
    if s.len() == 0 {
        0
    } else {
        2 * digits_value(s.drop_last()) + if s.last() == '1' { 1nat } else { 0nat }
    }
}

/// The binary digits of a number spell that number.
pub proof fn lemma_binary_digits_value(k: nat)
    ensures
        digits_value(binary_digits(k)) == k,
        binary_digits(k).len() >= 1,
        k >= 1 ==> binary_digits(k)[0] == '1',
    decreases k,
{
    if k < 2 {
        let s = binary_digits(k);
        assert(s.drop_last().len() == 0);
        assert(digits_value(s.drop_last()) == 0);
    } else {
        lemma_binary_digits_value(k / 2);
        let s = binary_digits(k);
        assert(s.drop_last() =~= binary_digits(k / 2));
        assert(s[0] == binary_digits(k / 2)[0]);
    }
}

/// The binary digits of `n`, from the most significant to the least.
pub fn bits(n: &Integer) -> (r: Vec<char>)
    requires
        value_of(*n) >= 0,
    ensures
        r@ == binary_digits(value_of(*n) as nat),
        digits_value(r@) == value_of(*n),
{
    proof {
        lemma_binary_digits_value(value_of(*n) as nat);
    }
    integer_binary_digits(n)
}

/// `n` is a prime number.
pub open spec fn is_prime(n: int) -> bool {
    n >= 2 && forall|d: int| 2 <= d < n ==> #[trigger] (n % d) != 0
}

/// `n` has no proper divisor among `2, .., bound - 1`.
pub open spec fn no_divisor_below(n: int, bound: int) -> bool {
    forall|d: int| 2 <= d < bound && d < n ==> #[trigger] (n % d) != 0
}

/// A number with no proper divisor up to its square root is prime.
pub proof fn lemma_prime_by_root(n: int, bound: int)
    requires
        n >= 2,
        bound >= 0,
        n < bound * bound,
        no_divisor_below(n, bound),
    ensures
        is_prime(n),
{
    assert forall|d: int| 2 <= d < n implies #[trigger] (n % d) != 0 by {
        if d >= bound && n % d == 0 {
            let q = n / d;
            lemma_fundamental_div_mod(n, d);
            assert(n == d * q);
            assert(q >= 2) by (nonlinear_arith)
                requires
                    n == d * q,
                    2 <= d < n,
            ;
            assert(q < bound) by (nonlinear_arith)
                requires
                    n == d * q,
                    n < bound * bound,
                    d >= bound,
                    bound >= 0,
                    q >= 0,
            ;
            assert(q < n) by (nonlinear_arith)
                requires
                    n == d * q,
                    d >= 2,
                    q >= 2,
            ;
            lemma_fundamental_div_mod_converse(n, q, d, 0);
            assert(n % q == 0);
        }
    }
}

/// Where `d` divides `i` and `i` divides `n`, `d` divides `n`.
pub proof fn lemma_divides_transitive(d: int, i: int, n: int)
    requires
        d > 0,
        i > 0,
        i % d == 0,
        n % i == 0,
    ensures
        n % d == 0,
{
    lemma_fundamental_div_mod(i, d);
    lemma_fundamental_div_mod(n, i);
    let a = i / d;
    let b = n / i;
    assert(n == (a * b) * d) by (nonlinear_arith)
        requires
            i == d * a,
            n == i * b,
    ;
    lemma_fundamental_div_mod_converse(n, d, a * b, 0);
}

/// Testing `i <= (limit - 1) / i` decides whether `i * i < limit`.
pub proof fn lemma_root_test(i: int, limit: int)
    requires
        i >= 1,
        limit >= 1,
    ensures
        (i <= (limit - 1) / i) <==> (i * i < limit),
{
    lemma_fundamental_div_mod(limit - 1, i);
    let q = (limit - 1) / i;
    let r = (limit - 1) % i;
    if i <= q {
        assert(i * i < limit) by (nonlinear_arith)
            requires
                limit - 1 == i * q + r,
                0 <= r,
                i <= q,
                i >= 1,
        ;
    } else {
        assert(i * i >= limit) by (nonlinear_arith)
            requires
                limit - 1 == i * q + r,
                r < i,
                q + 1 <= i,
                i >= 1,
        ;
    }
}

/// Sieve of Eratosthenes: afterwards `primes[i]` tells, for every `i` below
/// `limit`, whether `i` is prime. Entries from `limit` on stay as they were.
pub fn eratosthenes(primes: &mut Vec<bool>, limit: usize)
    requires
        limit <= old(primes)@.len(),
    ensures
        final(primes)@.len() == old(primes)@.len(),
        forall|i: int| 0 <= i < limit ==> final(primes)@[i] == is_prime(i),
        forall|i: int| limit <= i < old(primes)@.len() ==> final(primes)@[i] == old(primes)@[i],
{
    let ghost before = primes@;
    let mut k: usize = 0;
    while k < limit
        invariant
            k <= limit <= primes@.len(),
            primes@.len() == before.len(),
            forall|i: int| 0 <= i < k ==> primes@[i] == (i >= 2),
            forall|i: int| limit <= i < before.len() ==> primes@[i] == before[i],
        decreases limit - k,
    {
        primes[k] = k >= 2;
        k = k + 1;
    }
    let mut i: usize = 2;
    while i < limit && i <= (limit - 1) / i
        invariant
            2 <= i,
            limit <= primes@.len(),
            primes@.len() == before.len(),
            forall|n: int|
                0 <= n < limit ==> #[trigger] primes@[n] == (n >= 2 && no_divisor_below(
                    n,
                    i as int,
                )),
            forall|n: int| limit <= n < before.len() ==> primes@[n] == before[n],
        decreases limit - i,
    {
        let ghost ii = i as int;
        proof {
            lemma_root_test(ii, limit as int);
            assert(ii + ii <= ii * ii) by (nonlinear_arith)
                requires
                    ii >= 2,
            ;
        }
        if primes[i] {
            let ghost start = primes@;
            let mut j: usize = i + i;
            let ghost mut m: int = 2;
            while j < limit
                invariant
                    2 <= i < limit,
                    ii == i,
                    limit <= primes@.len(),
                    primes@.len() == before.len(),
                    start.len() == before.len(),
                    j < limit ==> j == ii * m,
                    ii + ii <= j,
                    forall|n: int|
                        0 <= n < limit ==> #[trigger] start[n] == (n >= 2 && no_divisor_below(
                            n,
                            ii,
                        )),
                    forall|n: int|
                        0 <= n < limit ==> #[trigger] primes@[n] == (start[n] && !(ii + ii <= n < j
                            && n % ii == 0)),
                    forall|n: int| limit <= n < before.len() ==> primes@[n] == before[n],
                decreases limit - j,
            {
                let ghost jj = j as int;
                let ghost marked = primes@;
                primes[j] = false;
                j = if i < limit - j {
                    j + i
                } else {
                    limit
                };
                proof {
                    lemma_fundamental_div_mod_converse(jj, ii, m, 0);
                    assert forall|n: int| jj < n < jj + ii implies #[trigger] (n % ii) != 0 by {
                        lemma_fundamental_div_mod_converse(n, ii, m, n - jj);
                    }
                    assert(ii * (m + 1) == ii * m + ii) by (nonlinear_arith);
                    m = m + 1;
                    assert forall|n: int| 0 <= n < limit implies primes@[n] == (start[n] && !(ii
                        + ii <= n < j && n % ii == 0)) by {
                        assert(marked[n] == (start[n] && !(ii + ii <= n < jj && n % ii == 0)));
                    }
                }
            }
            proof {
                assert forall|n: int| 0 <= n < limit implies primes@[n] == (n >= 2
                    && no_divisor_below(n, ii + 1)) by {
                    assert(start[n] == (n >= 2 && no_divisor_below(n, ii)));
                    if ii < n < ii + ii {
                        lemma_fundamental_div_mod_converse(n, ii, 1, n - ii);
                    }
                    if n >= 2 {
                        if ii < n && n % ii == 0 {
                            assert(!no_divisor_below(n, ii + 1));
                        } else if no_divisor_below(n, ii) {
                            assert(no_divisor_below(n, ii + 1));
                        }
                    }
                }
            }
        } else {
            proof {
                // i has a proper divisor, which divides every multiple of i
                assert(primes@[ii] == (ii >= 2 && no_divisor_below(ii, ii)));
                assert(!no_divisor_below(ii, ii));
                let d = choose|d: int| 2 <= d < ii && #[trigger] (ii % d) == 0;
                assert forall|n: int| 0 <= n < limit implies primes@[n] == (n >= 2
                    && no_divisor_below(n, ii + 1)) by {
                    if n >= 2 && no_divisor_below(n, ii) {
                        if ii < n && n % ii == 0 {
                            lemma_divides_transitive(d, ii, n);
                            assert(n % d == 0);
                        }
                        assert(no_divisor_below(n, ii + 1));
                    }
                }
            }
        }
        i = i + 1;
    }
    proof {
        let ii = i as int;
        assert forall|n: int| 0 <= n < limit implies primes@[n] == is_prime(n) by {
            if n >= 2 {
                if is_prime(n) {
                    assert(no_divisor_below(n, ii));
                }
                if no_divisor_below(n, ii) {
                    if i >= limit {
                        assert(is_prime(n));
                    } else {
                        lemma_root_test(ii, limit as int);
                        lemma_prime_by_root(n, ii);
                    }
                }
            }
        }
    }
}

/// The number of binary digits of `n`; zero has none.
pub open spec fn bit_length(n: nat) -> nat
    decreases n,
{
    if n == 0 {
        0
    } else {
        1 + bit_length(n / 2)
    }
}

/// A number below `2^k` has at most `k` binary digits.
pub proof fn lemma_bit_length_bound(n: nat, k: nat)
    requires
        n < pow2(k),
    ensures
        bit_length(n) <= k,
    decreases n,
{
    if n > 0 {
        if k == 0 {
            lemma2_to64();
        } else {
            lemma_pow2_unfold(k);
            lemma_bit_length_bound(n / 2, (k - 1) as nat);
        }
    }
}

/// The number of binary digits of `n`, which must not be negative.
pub fn bits_amount(n: &Integer) -> (amount: u32)
    requires
        value_of(*n) >= 0,
        bit_length(value_of(*n) as nat) <= u32::MAX,
    ensures
        amount == bit_length(value_of(*n) as nat),
{
    let zero = integer_from_u64(0);
    let mut amount: u32 = 0;
    let mut m = n.clone();
    while !integer_eq(&m, &zero)
        invariant
            value_of(zero) == 0,
            value_of(m) >= 0,
            amount + bit_length(value_of(m) as nat) == bit_length(value_of(*n) as nat),
            bit_length(value_of(*n) as nat) <= u32::MAX,
        decreases value_of(m),
    {
        m = integer_halve(&m);
        amount = amount + 1;
    }
    amount
}

/// The number of binary digits of `n`; zero has none.
pub fn bits_amount_u64(n: u64) -> (amount: u32)
    ensures
        amount == bit_length(n as nat),
        amount <= 64,
{
    proof {
        lemma2_to64();
        lemma_bit_length_bound(n as nat, 64);
    }
    let mut amount: u32 = 0;
    let mut m: u64 = n;
    while m != 0
        invariant
            amount + bit_length(m as nat) == bit_length(n as nat),
            bit_length(n as nat) <= 64,
        decreases m,
    {
        m = m / 2;
        amount = amount + 1;
    }
    amount
}

/// A number between `min` and `max`, both included, drawn from `rand`.
pub fn randint(rand: &mut RandState<'static>, min: &Integer, max: &Integer) -> (r: Integer)
    requires
        value_of(*min) <= value_of(*max),
    ensures
        value_of(*min) <= value_of(r) <= value_of(*max),
{
    let one = integer_from_u64(1);
    let width = integer_add(&integer_sub(max, min), &one);
    let offset = integer_random_below(&width, rand);
    integer_add(min, &offset)
}

/// The largest `e` with `x^e <= y`, for `x >= 2` and `y >= 1`; zero
/// otherwise.
pub open spec fn floor_log(x: nat, y: nat) -> nat
    decreases y,
    via floor_log_decreases
{
    if x < 2 || y < x {
        0
    } else {
        1 + floor_log(x, y / x)
    }
}

#[via_fn]
proof fn floor_log_decreases(x: nat, y: nat) {
    if !(x < 2 || y < x) {
        lemma_div_decreases(y as int, x as int);
    }
}

/// The integer logarithm is the exponent of the largest power that does not
/// exceed the number.
pub proof fn lemma_floor_log_bounds(x: nat, y: nat)
    requires
        x >= 2,
        y >= 1,
    ensures
        pow(x as int, floor_log(x, y)) <= y < pow(x as int, floor_log(x, y) + 1),
    decreases y,
{
    let xi = x as int;
    if y < x {
        lemma_pow0(xi);
        lemma_pow1(xi);
    } else {
        lemma_div_decreases(y as int, xi);
        lemma_fundamental_div_mod(y as int, xi);
        let h = y / x;
        let yi = y as int;
        let rem = yi % xi;
        assert(h >= 1) by (nonlinear_arith)
            requires
                yi == xi * h + rem,
                0 <= rem,
                rem < xi,
                yi >= xi,
        ;
        lemma_floor_log_bounds(x, h);
        let e = floor_log(x, h);
        let lo = pow(xi, e);
        let hi = pow(xi, e + 1);
        assert(pow(xi, e + 1) == xi * pow(xi, e)) by {
            reveal(pow);
        }
        assert(pow(xi, e + 2) == xi * pow(xi, e + 1)) by {
            reveal(pow);
        }
        assert(xi * lo <= yi && yi < xi * hi) by (nonlinear_arith)
            requires
                lo <= h,
                h + 1 <= hi,
                yi == xi * h + rem,
                0 <= rem,
                rem < xi,
                xi >= 2,
        ;
    }
}

/// The integer logarithm of `y` to the base `x`: the largest `e` with
/// `x^e <= y`, and whether `x^e` is `y` exactly. There is none for a base
/// below two or for `y = 0`.
pub fn integer_log(y: u64, x: u64) -> (r: Option<(u32, bool)>)
    ensures
        r is None <==> (x <= 1 || y == 0),
        r matches Some((e, exact)) ==> {
            &&& e == floor_log(x as nat, y as nat)
            &&& pow(x as int, e as nat) <= y < pow(x as int, e as nat + 1)
            &&& exact == (pow(x as int, e as nat) == y)
        },
{
    if x <= 1 || y == 0 {
        return None;
    }
    let mut e: u32 = 0;
    let mut yy: u64 = y;
    proof {
        lemma2_to64();
    }
    while yy >= x
        invariant
            x >= 2,
            yy >= 1,
            e + floor_log(x as nat, yy as nat) == floor_log(x as nat, y as nat),
            yy * pow2(e as nat) <= y,
            e < 64,
        decreases yy,
    {
        proof {
            lemma2_to64();
            lemma_div_decreases(yy as int, x as int);
            lemma_fundamental_div_mod(yy as int, x as int);
            lemma_pow2_unfold(e as nat + 1);
            let yi = yy as int;
            let xi = x as int;
            let h = yi / xi;
            let rem = yi % xi;
            let t = pow2(e as nat) as int;
            assert(h >= 1 && h * (2 * t) <= yi * t) by (nonlinear_arith)
                requires
                    yi == xi * h + rem,
                    0 <= rem,
                    rem < xi,
                    yi >= xi,
                    xi >= 2,
                    t >= 0,
            ;
            if e + 1 >= 64 {
                if e + 1 > 64 {
                    lemma_pow2_strictly_increases(64, e as nat + 1);
                }
                assert(h * pow2(e as nat + 1) >= pow2(64)) by (nonlinear_arith)
                    requires
                        h >= 1,
                        pow2(e as nat + 1) >= pow2(64),
                ;
            }
        }
        yy = yy / x;
        e = e + 1;
    }
    proof {
        lemma_floor_log_bounds(x as nat, y as nat);
    }
    let mut p: u64 = 1;
    let mut i: u32 = 0;
    proof {
        lemma_pow0(x as int);
    }
    while i < e
        invariant
            i <= e,
            x >= 2,
            p == pow(x as int, i as nat),
            pow(x as int, e as nat) <= y,
        decreases e - i,
    {
        proof {
            lemma_pow_increases(x as nat, i as nat + 1, e as nat);
            assert(pow(x as int, i as nat + 1) == x * pow(x as int, i as nat)) by {
                reveal(pow);
            }
        }
        p = p * x;
        i = i + 1;
    }
    Some((e, p == y))
}

/// The power `a^n` by repeated squaring, for an exponent that is not
/// negative. A zero base gives zero.
pub fn fast_pow(a: &Integer, n: &Integer) -> (r: Integer)
    requires
        value_of(*n) >= 0,
    ensures
        value_of(r) == if value_of(*a) == 0 {
            0
        } else {
            pow(value_of(*a), value_of(*n) as nat)
        },
{
    let zero = integer_from_u64(0);
    let one = integer_from_u64(1);
    let mut base = a.clone();
    let mut e = n.clone();
    if integer_eq(&base, &zero) {
        return base;
    }
    if integer_eq(&e, &zero) {
        proof {
            lemma_pow0(value_of(*a));
        }
        return one;
    }
    let mut acc = integer_from_u64(1);
    while integer_lt(&one, &e)
        invariant
            value_of(one) == 1,
            value_of(e) >= 1,
            value_of(*n) >= 0,
            value_of(acc) * pow(value_of(base), value_of(e) as nat) == pow(
                value_of(*a),
                value_of(*n) as nat,
            ),
        decreases value_of(e),
    {
        let ghost b = value_of(base);
        let ghost ev = value_of(e) as nat;
        let ghost h = ev / 2;
        proof {
            lemma_square_is_pow2(b);
            lemma_pow_multiplies(b, 2, h);
            assert(pow(b * b, h) == pow(b, 2 * h));
        }
        if integer_is_even(&e) {
            proof {
                assert(ev == 2 * h);
            }
        } else {
            proof {
                assert(ev == 2 * h + 1);
                assert(pow(b, 2 * h + 1) == b * pow(b, 2 * h)) by {
                    reveal(pow);
                }
                let t = pow(b, 2 * h);
                let av = value_of(acc);
                assert((av * b) * t == av * (b * t)) by (nonlinear_arith);
            }
            acc = integer_mul(&acc, &base);
        }
        base = integer_mul(&base, &base);
        e = integer_halve(&e);
    }
    proof {
        lemma_pow1(value_of(base));
    }
    integer_mul(&acc, &base)
}

} // verus!
