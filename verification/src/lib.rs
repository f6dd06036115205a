//! Integer factorisation with elliptic curves in Montgomery form, using
//! only multiplications and additions modulo the number to factor.
//!
//! A search tries one curve after another. Each curve is fixed by a seed
//! `sigma`; what a curve yields is a function of the number, the bounds, the
//! table of primes and the seed alone, and is stated as such.

pub mod arith;

use crate::arith::integer::{
    divides, gcd_of, integer_add, integer_from_u64, integer_gcd, integer_lt, integer_mul,
    integer_sub, integer_to_u64, inverse_of, is_gcd, lemma_divisor_bound, lemma_gcd_exists,
    lemma_gcd_unique,
    lemma_inverse_unique, seeded_rand_state, value_of,
};
use crate::arith::misc::{
    eratosthenes, fast_pow, floor_log, integer_log, is_prime, randint,
};
use crate::arith::modular_arithmetic::{
    invert_mod, multiply_mod, pow_mod, subtract_mod, take_mod,
};
use crate::arith::montgomery_point::{
    addh_model, double_model, ladder_model, lemma_ladder_modulo, MontgomeryPoint, PointModel,
};
use rug::Integer;
use std::sync::atomic::AtomicBool;
use std::sync::atomic::Ordering;
use vstd::arithmetic::power::{lemma_pow_positive, pow};
use vstd::prelude::*;

verus! {

/// `d` is the integer square root of `n`.
pub open spec fn is_floor_sqrt(d: int, n: int) -> bool {
    d >= 0 && d * d <= n < (d + 1) * (d + 1)
}

/// The integer square root of `n`.
pub open spec fn floor_sqrt(n: int) -> int {
    choose|d: int| is_floor_sqrt(d, n)
}

/// A number has at most one integer square root.
pub proof fn lemma_floor_sqrt_unique(d: int, n: int)
    requires
        is_floor_sqrt(d, n),
    ensures
        floor_sqrt(n) == d,
{
    let e = floor_sqrt(n);
    assert(is_floor_sqrt(e, n));
    assert(e == d) by (nonlinear_arith)
        requires
            d >= 0,
            e >= 0,
            d * d <= n,
            n < (d + 1) * (d + 1),
            e * e <= n,
            n < (e + 1) * (e + 1),
    ;
}

/// The integer square root of `n`: the largest `d` with `d * d <= n`.
pub fn integer_sqrt(n: u64) -> (d: u64)
    ensures
        is_floor_sqrt(d as int, n as int),
        d == floor_sqrt(n as int),
        d < 0x1_0000_0000,
{
    let mut lo: u64 = 0;
    let mut hi: u64 = 0x1_0000_0000;
    while hi - lo > 1
        invariant
            lo < hi <= 0x1_0000_0000,
            lo * lo <= n < hi * hi,
        decreases hi - lo,
    {
        let mid: u64 = lo + (hi - lo) / 2;
        assert(mid * mid <= 0xFFFF_FFFF * 0xFFFF_FFFF) by (nonlinear_arith)
            requires
                mid <= 0xFFFF_FFFF,
        ;
        if mid * mid <= n {
            lo = mid;
        } else {
            hi = mid;
        }
    }
    proof {
        lemma_floor_sqrt_unique(lo as int, n as int);
    }
    lo
}

/// The bounds that a search accepts, with a table of `table_len` entries:
/// `2 <= b1 <= b2`, a second bound of at least four, a first bound that
/// leaves room for one giant step below it, and a table that reaches past
/// the last giant step.
pub open spec fn valid_bounds(table_len: int, b1: int, b2: int) -> bool {
    let d = floor_sqrt(b2);
    &&& 2 <= b1 <= b2
    &&& d >= 2
    &&& b1 - 1 >= 2 * d
    &&& b2 + 2 * d + 1 <= table_len
}

/// The numbers that a search accepts: odd and greater than three.
pub open spec fn valid_modulus(n: int) -> bool {
    n > 3 && n % 2 == 1
}

/// The product of `p^e` over the marked `p` in `2, .., upto`, where `p^e` is
/// the largest power of `p` that does not exceed `b1`.
pub open spec fn prime_power_product(primes: Seq<bool>, b1: nat, upto: nat) -> int
    decreases upto,
{
    if upto < 2 {
        1
    } else {
        prime_power_product(primes, b1, (upto - 1) as nat) * if primes[upto as int] {
            pow(upto as int, floor_log(upto, b1))
        } else {
            1
        }
    }
}

/// The exponent of the first stage: the product of the largest powers, not
/// above `b1`, of the primes that the table marks up to `b1`.
pub fn stage_one_exponent(primes: &Vec<bool>, b1: u64) -> (k: Integer)
    requires
        b1 < primes@.len(),
    ensures
        value_of(k) == prime_power_product(primes@, b1 as nat, b1 as nat),
        value_of(k) >= 1,
{
    // the length of a table fits a machine word, and so does every index
    let table_len: usize = primes.len();
    let mut k = integer_from_u64(1);
    let mut p: u64 = 2;
    while p <= b1
        invariant
            2 <= p,
            b1 >= 2 ==> p <= b1 + 1,
            b1 < 2 ==> p == 2,
            b1 < primes@.len() <= usize::MAX,
            value_of(k) >= 1,
            value_of(k) == prime_power_product(primes@, b1 as nat, (p - 1) as nat),
        decreases b1 + 1 - p,
    {
        if primes[p as usize] {
            let e: u32 = match integer_log(b1, p) {
                Some(found) => found.0,
                None => 0,
            };
            let power = fast_pow(&integer_from_u64(p), &integer_from_u64(e as u64));
            proof {
                lemma_pow_positive(p as int, e as nat);
                let kv = value_of(k);
                let t = value_of(power);
                assert(kv * t >= 1) by (nonlinear_arith)
                    requires
                        kv >= 1,
                        t >= 1,
                ;
            }
            k = integer_mul(&k, &power);
        }
        p = p + 1;
    }
    proof {
        if b1 < 2 {
            assert(prime_power_product(primes@, b1 as nat, 1) == 1);
            assert(prime_power_product(primes@, b1 as nat, b1 as nat) == 1);
        }
    }
    k
}

/// The `i`-th entry of the table of the second stage: the multiple `[2i]`
/// of `q`. The entry at zero is `q` itself and is not used.
pub open spec fn table_point(q: PointModel, i: nat) -> PointModel
    decreases i,
{
    if i == 0 {
        q
    } else if i == 1 {
        double_model(q)
    } else if i == 2 {
        double_model(double_model(q))
    } else {
        addh_model(
            table_point(q, (i - 1) as nat),
            table_point(q, 1),
            table_point(q, (i - 2) as nat),
        )
    }
}

/// The product of the two coordinates of the `i`-th table entry, reduced.
pub open spec fn table_beta(q: PointModel, i: nat) -> int {
    let p = table_point(q, i);
    (p.x * p.z) % q.modulo
}

/// The table of the second stage: the points `[2i]q` for `i = 1, .., d`, and
/// for each the reduced product of its coordinates.
pub fn multiples_table(q: &MontgomeryPoint, d: usize) -> (r: (Vec<MontgomeryPoint>, Vec<Integer>))
    requires
        q@.modulo > 0,
        2 <= d < usize::MAX,
    ensures
        r.0@.len() == d + 1,
        r.1@.len() == d + 1,
        forall|i: int| 0 <= i <= d ==> (#[trigger] r.0@[i])@ == table_point(q@, i as nat),
        forall|i: int| 0 <= i <= d ==> value_of(#[trigger] r.1@[i]) == table_beta(q@, i as nat),
{
    let mut points: Vec<MontgomeryPoint> = Vec::new();
    let mut beta: Vec<Integer> = Vec::new();
    let unused = q.duplicate();
    let twice = q.double();
    let fourfold = twice.double();
    beta.push(multiply_mod(&unused.x, &unused.z, &q.modulo));
    beta.push(multiply_mod(&twice.x, &twice.z, &q.modulo));
    beta.push(multiply_mod(&fourfold.x, &fourfold.z, &q.modulo));
    points.push(unused);
    points.push(twice);
    points.push(fourfold);
    let mut idx: usize = 3;
    while idx <= d
        invariant
            3 <= idx <= d + 1,
            d < usize::MAX,
            q@.modulo > 0,
            points@.len() == idx,
            beta@.len() == idx,
            forall|i: int| 0 <= i < idx ==> (#[trigger] points@[i])@ == table_point(q@, i as nat),
            forall|i: int| 0 <= i < idx ==> value_of(#[trigger] beta@[i]) == table_beta(q@, i as nat),
        decreases d + 1 - idx,
    {
        assert(points@[1]@.modulo == q@.modulo && points@[idx - 1]@.modulo == q@.modulo) by {
            lemma_table_modulo(q@, 1);
            lemma_table_modulo(q@, (idx - 1) as nat);
        }
        let next = points[idx - 1].addh(&points[1], &points[idx - 2]);
        proof {
            lemma_table_modulo(q@, idx as nat);
        }
        beta.push(multiply_mod(&next.x, &next.z, &q.modulo));
        points.push(next);
        idx = idx + 1;
    }
    (points, beta)
}

/// Every table entry has the modulus of the point that the table is for.
pub proof fn lemma_table_modulo(q: PointModel, i: nat)
    ensures
        table_point(q, i).modulo == q.modulo,
        table_point(q, i).a24 == q.a24,
    decreases i,
{
    if i >= 3 {
        lemma_table_modulo(q, (i - 1) as nat);
    }
}

/// One term of the second stage's product, for the giant step `s`, the last
/// table entry `pd`, and the product `beta` of the baby step's coordinates.
pub open spec fn stage_two_term(s: PointModel, pd: PointModel, beta: int, n: int) -> int {
    (s.x - pd.x) * (s.z + pd.z) - (s.x * s.z) % n + beta
}

/// The accumulator after the baby steps `i, .., end - 1` of the giant step
/// at `r`: for each marked `i`, it is multiplied by the term of the table
/// entry `(i - r) / 2`.
pub open spec fn baby_steps(
    g: int,
    s: PointModel,
    q: PointModel,
    primes: Seq<bool>,
    r: int,
    d: int,
    i: int,
    end: int,
) -> int
    decreases end - i,
{
    if i >= end {
        g
    } else {
        let next = if primes[i] {
            (g * stage_two_term(
                s,
                table_point(q, d as nat),
                table_beta(q, ((i - r) / 2) as nat),
                q.modulo,
            )) % q.modulo
        } else {
            g
        };
        baby_steps(next, s, q, primes, r, d, i + 1, end)
    }
}

/// The accumulator after all giant steps from `r` on, `2d` apart and below
/// `b2`. `s` is the point of the step at `r`, `t` that of the step before.
pub open spec fn giant_steps(
    g: int,
    s: PointModel,
    t: PointModel,
    q: PointModel,
    primes: Seq<bool>,
    r: int,
    b2: int,
    d: int,
) -> int
    decreases
            (if r < b2 {
                b2 - r
            } else {
                0
            }),
{
    if r >= b2 || d <= 0 {
        g
    } else {
        giant_steps(
            baby_steps(g, s, q, primes, r, d, r + 2, r + 2 * d + 1),
            addh_model(s, table_point(q, d as nat), t),
            s,
            q,
            primes,
            r + 2 * d,
            b2,
            d,
        )
    }
}

/// The product that the second stage accumulates for the point `q`, which
/// the first stage left.
pub open spec fn stage_two_product(q: PointModel, primes: Seq<bool>, b1: int, b2: int, d: int) -> int {
    giant_steps(
        1,
        ladder_model(q, (b1 - 1) as nat),
        ladder_model(q, (b1 - 1 - 2 * d) as nat),
        q,
        primes,
        b1 - 1,
        b2,
        d,
    )
}

/// The second stage: the product, modulo the point's modulus, of one term
/// for every marked number between `b1` and the last giant step.
pub fn stage_two(q: &MontgomeryPoint, primes: &Vec<bool>, b1: u64, b2: u64, d: u64) -> (g: Integer)
    requires
        q@.modulo > 0,
        d >= 2,
        b1 >= 1,
        b1 - 1 >= 2 * d,
        b2 + 2 * d + 1 <= primes@.len(),
    ensures
        value_of(g) == stage_two_product(q@, primes@, b1 as int, b2 as int, d as int),
{
    // the length of a table fits a machine word, and so does every index
    let table_len: usize = primes.len();
    let (points, beta) = multiples_table(q, d as usize);
    let b: u64 = b1 - 1;
    let mut t = q.montgomery_ladder(&integer_from_u64(b - 2 * d));
    let mut s = q.montgomery_ladder(&integer_from_u64(b));
    let mut g = integer_from_u64(1);
    let mut r: u64 = b;
    let ghost pd = table_point(q@, d as nat);
    proof {
        lemma_ladder_modulo(q@, b as nat);
    }
    while r < b2
        invariant
            q@.modulo > 0,
            d >= 2,
            b2 + 2 * d + 1 <= primes@.len() <= usize::MAX,
            points@.len() == d + 1,
            beta@.len() == d + 1,
            s@.modulo == q@.modulo,
            pd == table_point(q@, d as nat),
            forall|i: int| 0 <= i <= d ==> (#[trigger] points@[i])@ == table_point(q@, i as nat),
            forall|i: int| 0 <= i <= d ==> value_of(#[trigger] beta@[i]) == table_beta(q@, i as nat),
            giant_steps(value_of(g), s@, t@, q@, primes@, r as int, b2 as int, d as int)
                == stage_two_product(q@, primes@, b1 as int, b2 as int, d as int),
        decreases b2 + 2 * d - r,
    {
        let alpha = multiply_mod(&s.x, &s.z, &q.modulo);
        let end: u64 = r + 2 * d + 1;
        let mut i: u64 = r + 2;
        let ghost g0 = value_of(g);
        let last = &points[d as usize];
        assert(last@ == pd);
        let left = integer_sub(&s.x, &last.x);
        let right = integer_add(&s.z, &last.z);
        let base = integer_sub(&integer_mul(&left, &right), &alpha);
        while i < end
            invariant
                q@.modulo > 0,
                r + 2 <= i <= end,
                end == r + 2 * d + 1,
                end <= primes@.len() <= usize::MAX,
                d >= 2,
                pd == table_point(q@, d as nat),
                beta@.len() == d + 1,
                value_of(base) == (s@.x - pd.x) * (s@.z + pd.z) - (s@.x * s@.z) % q@.modulo,
                forall|j: int| 0 <= j <= d ==> value_of(#[trigger] beta@[j]) == table_beta(q@, j as nat),
                baby_steps(value_of(g), s@, q@, primes@, r as int, d as int, i as int, end as int)
                    == baby_steps(g0, s@, q@, primes@, r as int, d as int, r + 2, end as int),
            decreases end - i,
        {
            let ghost before = value_of(g);
            if primes[i as usize] {
                let delta: usize = ((i - r) / 2) as usize;
                let f = integer_add(&base, &beta[delta]);
                g = multiply_mod(&g, &f, &q.modulo);
            }
            assert(baby_steps(before, s@, q@, primes@, r as int, d as int, i as int, end as int)
                == baby_steps(value_of(g), s@, q@, primes@, r as int, d as int, i + 1, end as int));
            i = i + 1;
        }
        let next = s.addh(last, &t);
        t = s;
        s = next;
        r = r + 2 * d;
    }
    g
}

/// Suyama's `u = sigma^2 - 5`, reduced.
pub open spec fn suyama_u(n: int, sigma: int) -> int {
    (sigma * sigma - 5) % n
}

/// Suyama's `v = 4 sigma`, reduced.
pub open spec fn suyama_v(n: int, sigma: int) -> int {
    (4 * sigma) % n
}

/// The number `4 u^3 v` that must be inverted to reach the curve of the
/// seed; only `u^3` and `v` are reduced.
pub open spec fn suyama_a(n: int, sigma: int) -> int {
    4 * ((pow(suyama_u(n, sigma), 3) % n) * suyama_v(n, sigma))
}

/// The starting point `(u^3 : v^3)` on the curve of the seed, whose
/// coefficient is `c = (v - u)^3 (3u + v) / (4 u^3 v) - 2`.
pub open spec fn suyama_point(n: int, sigma: int) -> PointModel {
    let u = suyama_u(n, sigma);
    let v = suyama_v(n, sigma);
    let diff = (v - u) % n;
    let inv = inverse_of(suyama_a(n, sigma), n);
    let c = ((pow(diff, 3) % n) * (3 * u + v) * inv - 2) % n;
    PointModel {
        x: pow(u, 3) % n,
        z: pow(v, 3) % n,
        a24: ((c + 2) * inverse_of(4, n)) % n,
        modulo: n,
    }
}

/// What the curve of the seed `sigma` yields for `n`: the common divisor of
/// `n` and `4 u^3 v` where that number has no inverse; else the common
/// divisor of `n` and the `Z` coordinate after the first stage, where it
/// lies strictly between one and `n`; else that of `n` and the product of
/// the second stage, under the same condition; else nothing.
pub open spec fn curve_factor(n: int, primes: Seq<bool>, b1: int, b2: int, sigma: int) -> Option<
    int,
> {
    let a = suyama_a(n, sigma);
    if !is_gcd(1, a, n) {
        Some(gcd_of(a, n))
    } else {
        let k = prime_power_product(primes, b1 as nat, b1 as nat);
        let q = ladder_model(suyama_point(n, sigma), k as nat);
        let g1 = gcd_of(q.z, n);
        if 1 < g1 < n {
            Some(g1)
        } else {
            let g2 = gcd_of(stage_two_product(q, primes, b1, b2, floor_sqrt(b2)), n);
            if 1 < g2 < n {
                Some(g2)
            } else {
                None
            }
        }
    }
}

/// The value of a factor that was found, if one was.
pub open spec fn factor_value(r: Option<Integer>) -> Option<int> {
    match r {
        Some(f) => Some(value_of(f)),
        None => None,
    }
}

/// `f` is a divisor of `n` greater than one. It is a proper divisor unless
/// the seed is one for which `n` divides `4 u^3 v`.
pub open spec fn is_factor_found(f: int, n: int, sigma: int) -> bool {
    &&& 1 < f <= n
    &&& n % f == 0
    &&& f == n ==> suyama_a(n, sigma) % n == 0
}

/// Whatever a curve yields is a proper divisor of the number, greater than
/// one, unless the number divides `4 u^3 v`, that is unless the seed fixes
/// no curve at all.
pub proof fn lemma_curve_factor_proper(n: int, primes: Seq<bool>, b1: int, b2: int, sigma: int, f: int)
    requires
        n > 0,
        suyama_a(n, sigma) % n != 0,
        curve_factor(n, primes, b1, b2, sigma) == Some(f),
    ensures
        1 < f < n,
        n % f == 0,
{
    lemma_curve_factor_divides(n, primes, b1, b2, sigma, f);
}

/// Whatever a curve yields divides the number and is greater than one. It
/// is the number itself only where the number divides `4 u^3 v`.
pub proof fn lemma_curve_factor_divides(n: int, primes: Seq<bool>, b1: int, b2: int, sigma: int, f: int)
    requires
        n > 0,
        curve_factor(n, primes, b1, b2, sigma) == Some(f),
    ensures
        is_factor_found(f, n, sigma),
{
    let a = suyama_a(n, sigma);
    if !is_gcd(1, a, n) {
        lemma_gcd_exists(a, n);
        lemma_divisor_bound(f, n);
    } else {
        let k = prime_power_product(primes, b1 as nat, b1 as nat);
        let q = ladder_model(suyama_point(n, sigma), k as nat);
        lemma_gcd_exists(q.z, n);
        lemma_gcd_exists(stage_two_product(q, primes, b1, b2, floor_sqrt(b2)), n);
    }
}

/// One is the only common divisor of four and an odd number.
pub proof fn lemma_four_coprime(n: int)
    requires
        n > 0,
        n % 2 == 1,
    ensures
        is_gcd(1, 4, n),
{
    assert forall|d: int| #[trigger] divides(d, 4) && divides(d, n) implies d <= 1 by {
        lemma_divisor_bound(d, 4);
        if d == 2 {
            assert(n % 2 == 1);
        } else if d == 3 {
            assert(4int % 3 == 1);
        } else if d == 4 {
            assert(n % 4 == 0 ==> n % 2 == 0);
        }
    }
}

/// Tries the curve of the seed `sigma`: both stages, and before them the
/// inversion that fixes the curve.
pub fn ecm_curve(n: &Integer, primes: &Vec<bool>, b1: u64, b2: u64, sigma: &Integer) -> (r: Option<
    Integer,
>)
    requires
        valid_modulus(value_of(*n)),
        valid_bounds(primes@.len() as int, b1 as int, b2 as int),
    ensures
        factor_value(r) == curve_factor(
            value_of(*n),
            primes@,
            b1 as int,
            b2 as int,
            value_of(*sigma),
        ),
        r matches Some(f) ==> is_factor_found(value_of(f), value_of(*n), value_of(*sigma)),
{
    let ghost nv = value_of(*n);
    let d = integer_sqrt(b2);
    let one = integer_from_u64(1);
    let two = integer_from_u64(2);
    let three = integer_from_u64(3);
    let four = integer_from_u64(4);
    let five = integer_from_u64(5);
    let v = multiply_mod(&four, sigma, n);
    let u = subtract_mod(&integer_mul(sigma, sigma), &five, n);
    let diff = subtract_mod(&v, &u, n);
    let u_cubed = pow_mod(&u, 3, n);
    let a = integer_mul(&four, &integer_mul(&u_cubed, &v));
    assert(value_of(a) == suyama_a(nv, value_of(*sigma)));
    match invert_mod(&a, n) {
        None => {
            let g = integer_gcd(&a, n);
            proof {
                lemma_gcd_unique(value_of(g), value_of(a), nv);
                lemma_divisor_bound(value_of(g), nv);
            }
            Some(g)
        },
        Some(inv) => {
            proof {
                lemma_inverse_unique(value_of(inv), value_of(a), nv);
                lemma_four_coprime(nv);
            }
            let sum = integer_add(&integer_mul(&three, &u), &v);
            let product = integer_mul(&integer_mul(&pow_mod(&diff, 3, n), &sum), &inv);
            let c = take_mod(&integer_sub(&product, &two), n);
            let start = MontgomeryPoint::new2(u_cubed, pow_mod(&v, 3, n), c, n.clone());
            assert(start@ == suyama_point(nv, value_of(*sigma)));
            let k = stage_one_exponent(primes, b1);
            let q = start.montgomery_ladder(&k);
            proof {
                lemma_ladder_modulo(start@, value_of(k) as nat);
            }
            let g = integer_gcd(&q.z, n);
            proof {
                lemma_gcd_unique(value_of(g), q@.z, nv);
            }
            if integer_lt(&one, &g) && integer_lt(&g, n) {
                return Some(g);
            }
            let product = stage_two(&q, primes, b1, b2, d);
            let g = integer_gcd(&product, n);
            proof {
                lemma_gcd_unique(value_of(g), value_of(product), nv);
            }
            if integer_lt(&one, &g) && integer_lt(&g, n) {
                Some(g)
            } else {
                None
            }
        },
    }
}

/// The number of curves that a search may try: the given limit, cut to the
/// range of `u64`, and the largest such number without a limit.
pub open spec fn curve_budget(max_curves: Option<Integer>) -> int {
    match max_curves {
        Some(l) => if value_of(l) < 0 {
            0
        } else if value_of(l) > u64::MAX {
            u64::MAX as int
        } else {
            value_of(l)
        },
        None => u64::MAX as int,
    }
}

/// Whether a peer has announced a factor.
fn is_raised(flag: &AtomicBool) -> bool {
    flag.load(Ordering::Relaxed)
}

/// Announces to the peers that a factor was found.
fn raise(flag: &AtomicBool) {
    flag.swap(true, Ordering::Relaxed);
}

/// What a worker does with one curve.
#[derive(Debug, PartialEq)]
pub enum CurveOutcome {
    /// The flag was seen raised: the worker gives up without a factor.
    Cancelled,
    /// The curve yielded this factor: the worker returns it.
    Found(Integer),
    /// The curve yielded nothing: the worker goes on to the next.
    Nothing,
}

/// One round of a worker, given what it saw of the flag and the seed it
/// took: with the flag raised it gives up, whatever the curve would yield;
/// else it tries the curve of the seed.
pub fn worker_curve(
    raised: bool,
    n: &Integer,
    primes: &Vec<bool>,
    b1: u64,
    b2: u64,
    seed: &Integer,
) -> (r: CurveOutcome)
    requires
        valid_modulus(value_of(*n)),
        valid_bounds(primes@.len() as int, b1 as int, b2 as int),
    ensures
        raised ==> r is Cancelled,
        !raised ==> match curve_factor(
            value_of(*n),
            primes@,
            b1 as int,
            b2 as int,
            value_of(*seed),
        ) {
            Some(f) => r matches CurveOutcome::Found(g) && value_of(g) == f,
            None => r is Nothing,
        },
        r matches CurveOutcome::Found(g) ==> is_factor_found(
            value_of(g),
            value_of(*n),
            value_of(*seed),
        ),
{
    if raised {
        return CurveOutcome::Cancelled;
    }
    match ecm_curve(n, primes, b1, b2, seed) {
        Some(f) => CurveOutcome::Found(f),
        None => CurveOutcome::Nothing,
    }
}

/// Tries curve after curve until one yields a factor, the budget is spent,
/// or, where there is a flag, a peer has raised it. With a seed given, one
/// curve is tried, that of the seed; without, each curve has a seed drawn
/// from `[6, n - 1]` by a generator that is seeded with `thread_no`. A search
/// without a limit stops after `u64::MAX` curves.
pub fn search_curves(
    n: &Integer,
    max_curves: &Option<Integer>,
    primes: &Vec<bool>,
    b1: u64,
    b2: u64,
    sigma: &Option<Integer>,
    thread_no: usize,
    flag: Option<&AtomicBool>,
) -> (r: Option<Integer>)
    requires
        valid_modulus(value_of(*n)),
        valid_bounds(primes@.len() as int, b1 as int, b2 as int),
        sigma is None ==> value_of(*n) >= 7,
    ensures
        r matches Some(f) ==> 1 < value_of(f) <= value_of(*n) && value_of(*n) % value_of(f) == 0,
        curve_budget(*max_curves) == 0 ==> r is None,
        sigma matches Some(s) ==> r is None || factor_value(r) == curve_factor(
            value_of(*n),
            primes@,
            b1 as int,
            b2 as int,
            value_of(*s),
        ),
        sigma matches Some(s) ==> (flag is None && curve_budget(*max_curves) > 0 ==> factor_value(r)
            == curve_factor(value_of(*n), primes@, b1 as int, b2 as int, value_of(*s))),
        sigma is None ==> (r matches Some(f) ==> exists|s: int|
            6 <= s < value_of(*n) && #[trigger] curve_factor(
                value_of(*n),
                primes@,
                b1 as int,
                b2 as int,
                s,
            ) == Some(value_of(f))),
{
    let zero = integer_from_u64(0);
    let budget: u64 = match max_curves {
        Some(l) => match integer_to_u64(l) {
            Some(v) => v,
            None => if integer_lt(l, &zero) {
                0
            } else {
                u64::MAX
            },
        },
        None => u64::MAX,
    };
    let mut remaining: u64 = match sigma {
        Some(_) => if budget > 0 {
            1
        } else {
            0
        },
        None => budget,
    };
    let mut rand = seeded_rand_state(&integer_from_u64(thread_no as u64));
    let six = integer_from_u64(6);
    let top = integer_sub(n, &integer_from_u64(1));
    while remaining > 0
        invariant
            valid_modulus(value_of(*n)),
            valid_bounds(primes@.len() as int, b1 as int, b2 as int),
            sigma is None ==> value_of(*n) >= 7,
            value_of(six) == 6,
            value_of(top) == value_of(*n) - 1,
            budget == curve_budget(*max_curves),
            budget == 0 ==> remaining == 0,
            sigma is Some ==> remaining <= 1,
            sigma matches Some(s) ==> (remaining == 0 && budget > 0 ==> curve_factor(
                value_of(*n),
                primes@,
                b1 as int,
                b2 as int,
                value_of(*s),
            ) is None),
        decreases remaining,
    {
        remaining = remaining - 1;
        let raised = match flag {
            Some(shared) => is_raised(shared),
            None => false,
        };
        let seed = match sigma {
            Some(s) => s.clone(),
            None => randint(&mut rand, &six, &top),
        };
        match worker_curve(raised, n, primes, b1, b2, &seed) {
            CurveOutcome::Cancelled => {
                return None;
            },
            CurveOutcome::Found(f) => {
                if let Some(shared) = flag {
                    raise(shared);
                }
                return Some(f);
            },
            CurveOutcome::Nothing => {},
        }
    }
    None
}

/// One worker of a search that several share: it tries curves as
/// [`search_curves`] does and, before each, gives up if `found_factor` is
/// set. It sets `found_factor` when it returns a factor.
pub fn inversionless_ecm(
    n: &Integer,
    max_curves: &Option<Integer>,
    primes: &Vec<bool>,
    b1: u64,
    b2: u64,
    sigma: &Option<Integer>,
    thread_no: usize,
    found_factor: &AtomicBool,
) -> (r: Option<Integer>)
    requires
        valid_modulus(value_of(*n)),
        valid_bounds(primes@.len() as int, b1 as int, b2 as int),
        sigma is None ==> value_of(*n) >= 7,
    ensures
        r matches Some(f) ==> 1 < value_of(f) <= value_of(*n) && value_of(*n) % value_of(f) == 0,
        curve_budget(*max_curves) == 0 ==> r is None,
        sigma matches Some(s) ==> r is None || factor_value(r) == curve_factor(
            value_of(*n),
            primes@,
            b1 as int,
            b2 as int,
            value_of(*s),
        ),
        sigma is None ==> (r matches Some(f) ==> exists|s: int|
            6 <= s < value_of(*n) && #[trigger] curve_factor(
                value_of(*n),
                primes@,
                b1 as int,
                b2 as int,
                s,
            ) == Some(value_of(f))),
{
    search_curves(n, max_curves, primes, b1, b2, sigma, thread_no, Some(found_factor))
}

/// The table that tells of every number below `len` whether it is prime.
pub open spec fn prime_seq(len: int) -> Seq<bool> {
    Seq::new(len as nat, |i: int| is_prime(i))
}

/// The length of the table of primes that a search with the second bound
/// `b2` needs: it reaches one giant step past `b2`.
pub open spec fn table_length(b2: int) -> int {
    b2 + 2 * floor_sqrt(b2) + 1
}

/// The table of primes for a search with the second bound `b2`.
pub fn prime_table(b2: u64) -> (r: Vec<bool>)
    requires
        table_length(b2 as int) <= usize::MAX,
    ensures
        r@ == prime_seq(table_length(b2 as int)),
{
    let d = integer_sqrt(b2);
    let limit: usize = (b2 + 2 * d + 1) as usize;
    let mut primes: Vec<bool> = Vec::new();
    let mut i: usize = 0;
    while i < limit
        invariant
            i <= limit,
            primes@.len() == i,
        decreases limit - i,
    {
        primes.push(true);
        i = i + 1;
    }
    eratosthenes(&mut primes, limit);
    assert(primes@ =~= prime_seq(table_length(b2 as int)));
    primes
}

/// A search on one thread: the table of primes is built, and curves are
/// tried until one yields a factor or the budget is spent. With a seed
/// given and a budget of at least one, the result is what the curve of the
/// seed yields.
pub fn ecm_singlethreaded(
    n: &Integer,
    max_curves: &Option<Integer>,
    b1: u64,
    b2: u64,
    sigma: &Option<Integer>,
) -> (r: Option<Integer>)
    requires
        valid_modulus(value_of(*n)),
        valid_bounds(table_length(b2 as int), b1 as int, b2 as int),
        table_length(b2 as int) <= usize::MAX,
        sigma is None ==> value_of(*n) >= 7,
    ensures
        r matches Some(f) ==> 1 < value_of(f) <= value_of(*n) && value_of(*n) % value_of(f) == 0,
        curve_budget(*max_curves) == 0 ==> r is None,
        sigma matches Some(s) ==> (curve_budget(*max_curves) > 0 ==> factor_value(r)
            == curve_factor(
            value_of(*n),
            prime_seq(table_length(b2 as int)),
            b1 as int,
            b2 as int,
            value_of(*s),
        )),
        sigma is None ==> (r matches Some(f) ==> exists|s: int|
            6 <= s < value_of(*n) && #[trigger] curve_factor(
                value_of(*n),
                prime_seq(table_length(b2 as int)),
                b1 as int,
                b2 as int,
                s,
            ) == Some(value_of(f))),
{
    let primes = prime_table(b2);
    search_curves(n, max_curves, &primes, b1, b2, sigma, 0, None)
}

/// The number of workers that a search runs when `nthreads` threads are
/// offered: one where a seed is given, since there is one curve to try, and
/// one where fewer than two threads are offered.
pub fn worker_count(sigma: &Option<Integer>, nthreads: usize) -> (r: usize)
    ensures
        r == if sigma is Some || nthreads <= 1 {
            1
        } else {
            nthreads as int
        },
{
    if sigma.is_some() || nthreads <= 1 {
        1
    } else {
        nthreads
    }
}

/// The last factor in a list of results, if any result holds one.
pub open spec fn last_found(results: Seq<Option<Integer>>) -> Option<int>
    decreases results.len(),
{
    if results.len() == 0 {
        None
    } else {
        match results.last() {
            Some(f) => Some(value_of(f)),
            None => last_found(results.drop_last()),
        }
    }
}

/// What a search on several threads reports, given what each worker
/// returned: the factor of the last worker that found one.
pub fn pick_factor(results: &Vec<Option<Integer>>) -> (r: Option<Integer>)
    ensures
        factor_value(r) == last_found(results@),
{
    let mut found: Option<Integer> = None;
    let mut i: usize = 0;
    while i < results.len()
        invariant
            i <= results@.len(),
            factor_value(found) == last_found(results@.take(i as int)),
        decreases results@.len() - i,
    {
        proof {
            assert(results@.take(i + 1).drop_last() =~= results@.take(i as int));
        }
        match &results[i] {
            Some(f) => {
                found = Some(f.clone());
            },
            None => {},
        }
        i = i + 1;
    }
    proof {
        assert(results@.take(results@.len() as int) =~= results@);
    }
    found
}

} // verus!
