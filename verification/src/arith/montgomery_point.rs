//! Points of a Montgomery curve `y^2 = x^3 + c x^2 + x` over the residues
//! modulo `N`, in projective `(X : Z)` coordinates.

use crate::arith::integer::{
    integer_add, integer_eq, integer_from_u64, integer_mul, integer_sub, inverse_of, is_gcd,
    lemma_inverse_unique, value_of,
};
use crate::arith::misc::{bits, digits_value};
use crate::arith::modular_arithmetic::{add_mod, invert_mod, multiply_mod, subtract_mod, take_mod};
use rug::Integer;
use vstd::arithmetic::div_mod::{
    lemma_add_mod_noop, lemma_mod_twice, lemma_mul_mod_noop_general, lemma_sub_mod_noop,
};
use vstd::prelude::*;

verus! {

/// What a point is mathematically: its two coordinates, the curve constant
/// `a24 = (c + 2) / 4` and the modulus.
pub struct PointModel {
    pub x: int,
    pub z: int,
    pub a24: int,
    pub modulo: int,
}

/// The sum of `p` and `q`, given their difference `d`.
pub open spec fn addh_model(p: PointModel, q: PointModel, d: PointModel) -> PointModel {
    let n = p.modulo;
    let u = ((p.x - p.z) * (q.x + q.z)) % n;
    let v = ((p.x + p.z) * (q.x - q.z)) % n;
    PointModel {
        x: (d.z * ((u + v) * (u + v))) % n,
        z: (d.x * ((u - v) * (u - v))) % n,
        a24: p.a24,
        modulo: n,
    }
}

/// Twice the point `p`.
pub open spec fn double_model(p: PointModel) -> PointModel {
    let n = p.modulo;
    let u = ((p.x + p.z) * (p.x + p.z)) % n;
    let v = ((p.x - p.z) * (p.x - p.z)) % n;
    let d = (u - v) % n;
    PointModel { x: (u * v) % n, z: (d * (v + p.a24 * d)) % n, a24: p.a24, modulo: n }
}

/// Two points are the same where modulus and curve constant agree, both `Z`
/// coordinates have an inverse, and the ratios `X / Z` are congruent.
pub open spec fn same_point(p: PointModel, q: PointModel) -> bool {
    let n = p.modulo;
    &&& n == q.modulo
    &&& p.a24 == q.a24
    &&& is_gcd(1, p.z, n)
    &&& is_gcd(1, q.z, n)
    &&& (p.x * inverse_of(p.z, n)) % n == (q.x * inverse_of(q.z, n)) % n
}

/// The pair that the Montgomery ladder holds once it has read the binary
/// digits of `k`: for `k >= 1` the multiples `[k]p` and `[k + 1]p`.
pub open spec fn ladder_pair(p: PointModel, k: nat) -> (PointModel, PointModel)
    decreases k,
{
    if k < 2 {
        (p, double_model(p))
    } else {
        let (q, r) = ladder_pair(p, k / 2);
        if k % 2 == 1 {
            (addh_model(r, q, p), double_model(r))
        } else {
            (double_model(q), addh_model(q, r, p))
        }
    }
}

/// The multiple `[k]p` as the ladder computes it.
pub open spec fn ladder_model(p: PointModel, k: nat) -> PointModel {
    ladder_pair(p, k).0
}

/// The ladder leaves the modulus as it is.
pub proof fn lemma_ladder_modulo(p: PointModel, k: nat)
    ensures
        ladder_pair(p, k).0.modulo == p.modulo,
        ladder_pair(p, k).1.modulo == p.modulo,
    decreases k,
{
    if k >= 2 {
        lemma_ladder_modulo(p, k / 2);
    }
}

/// The ladder with the scalar one gives the point itself, and with the
/// scalar two its double.
pub proof fn lemma_ladder_small(p: PointModel)
    ensures
        ladder_model(p, 1) == p,
        ladder_model(p, 2) == double_model(p),
{
    assert(ladder_pair(p, 1) == (p, double_model(p)));
    assert(ladder_pair(p, 2).0 == double_model(ladder_pair(p, 1).0));
}

/// `a` and `b` leave the same remainder modulo `n`.
pub open spec fn congruent(a: int, b: int, n: int) -> bool {
    a % n == b % n
}

/// Products of congruent numbers are congruent.
pub proof fn lemma_congruent_mul(a: int, b: int, c: int, d: int, n: int)
    requires
        n > 0,
        congruent(a, b, n),
        congruent(c, d, n),
    ensures
        congruent(a * c, b * d, n),
{
    lemma_mul_mod_noop_general(a, c, n);
    lemma_mul_mod_noop_general(b, d, n);
}

/// Sums of congruent numbers are congruent.
pub proof fn lemma_congruent_add(a: int, b: int, c: int, d: int, n: int)
    requires
        n > 0,
        congruent(a, b, n),
        congruent(c, d, n),
    ensures
        congruent(a + c, b + d, n),
{
    lemma_add_mod_noop(a, c, n);
    lemma_add_mod_noop(b, d, n);
}

/// Differences of congruent numbers are congruent.
pub proof fn lemma_congruent_sub(a: int, b: int, c: int, d: int, n: int)
    requires
        n > 0,
        congruent(a, b, n),
        congruent(c, d, n),
    ensures
        congruent(a - c, b - d, n),
{
    lemma_sub_mod_noop(a, c, n);
    lemma_sub_mod_noop(b, d, n);
}

/// Doubling follows the doubling formula of the curve
/// `y^2 = x^3 + a x^2 + x`: where `4 a24 = a + 2`, the double of `(X : Z)` is
/// `((X^2 - Z^2)^2 : 4 X Z (X^2 + a X Z + Z^2))`, reduced.
pub proof fn lemma_double_formula(p: PointModel, a: int)
    requires
        p.modulo > 0,
        congruent(4 * p.a24, a + 2, p.modulo),
    ensures
        double_model(p).x == ((p.x * p.x - p.z * p.z) * (p.x * p.x - p.z * p.z)) % p.modulo,
        double_model(p).z == (4 * p.x * p.z * (p.x * p.x + a * p.x * p.z + p.z * p.z)) % p.modulo,
{
    let n = p.modulo;
    let x = p.x;
    let z = p.z;
    let uu = (x + z) * (x + z);
    let vv = (x - z) * (x - z);
    let um = uu % n;
    let vm = vv % n;
    let dm = (um - vm) % n;
    let dd = 4 * x * z;
    lemma_mod_twice(uu, n);
    lemma_mod_twice(vv, n);
    lemma_mod_twice(um - vm, n);
    // X
    lemma_congruent_mul(um, uu, vm, vv, n);
    assert(uu * vv == (x * x - z * z) * (x * x - z * z)) by (nonlinear_arith)
        requires
            uu == (x + z) * (x + z),
            vv == (x - z) * (x - z),
    ;
    // Z
    assert(uu - vv == dd) by (nonlinear_arith)
        requires
            uu == (x + z) * (x + z),
            vv == (x - z) * (x - z),
            dd == 4 * x * z,
    ;
    lemma_congruent_sub(um, uu, vm, vv, n);
    assert(congruent(dm, dd, n));
    lemma_congruent_mul(p.a24, p.a24, dm, dd, n);
    lemma_congruent_add(vm, vv, p.a24 * dm, p.a24 * dd, n);
    lemma_congruent_mul(dm, dd, vm + p.a24 * dm, vv + p.a24 * dd, n);
    let w = x * z * dd;
    assert(dd * (vv + p.a24 * dd) == dd * vv + (4 * p.a24) * w) by (nonlinear_arith)
        requires
            dd == 4 * x * z,
            w == x * z * dd,
    ;
    lemma_congruent_mul(4 * p.a24, a + 2, w, w, n);
    lemma_congruent_add(dd * vv, dd * vv, (4 * p.a24) * w, (a + 2) * w, n);
    assert(dd * vv + (a + 2) * w == 4 * x * z * (x * x + a * x * z + z * z)) by (nonlinear_arith)
        requires
            dd == 4 * x * z,
            w == x * z * dd,
            vv == (x - z) * (x - z),
    ;
}

#[derive(Clone, PartialEq, Debug, Default)]
pub struct MontgomeryPoint {
    pub x: Integer,
    pub z: Integer,
    pub a24: Integer,
    pub modulo: Integer,
}

impl View for MontgomeryPoint {
    type V = PointModel;

    open spec fn view(&self) -> PointModel {
        PointModel {
            x: value_of(self.x),
            z: value_of(self.z),
            a24: value_of(self.a24),
            modulo: value_of(self.modulo),
        }
    }
}

impl MontgomeryPoint {
    /// The point `(x : z)` on the curve with the constant `a24`, modulo
    /// `modulo`.
    pub fn new(x: Integer, z: Integer, a24: Integer, modulo: Integer) -> (r: MontgomeryPoint)
        ensures
            r@ == (PointModel {
                x: value_of(x),
                z: value_of(z),
                a24: value_of(a24),
                modulo: value_of(modulo),
            }),
    {
        MontgomeryPoint { x, z, a24, modulo }
    }

    /// The point `(x : z)` on the curve `y^2 = x^3 + a x^2 + x`: its constant
    /// is `(a + 2) / 4` modulo `modulo`, which must be prime to four.
    pub fn new2(x: Integer, z: Integer, a: Integer, modulo: Integer) -> (r: MontgomeryPoint)
        requires
            value_of(modulo) > 0,
            is_gcd(1, 4, value_of(modulo)),
        ensures
            r@.x == value_of(x),
            r@.z == value_of(z),
            r@.modulo == value_of(modulo),
            r@.a24 == ((value_of(a) + 2) * inverse_of(4, value_of(modulo))) % value_of(modulo),
            0 <= r@.a24 < value_of(modulo),
    {
        let four = integer_from_u64(4);
        let two = integer_from_u64(2);
        match invert_mod(&four, &modulo) {
            Some(inv) => {
                let a24 = multiply_mod(&integer_add(&a, &two), &inv, &modulo);
                proof {
                    lemma_inverse_unique(value_of(inv), 4, value_of(modulo));
                }
                MontgomeryPoint { x, z, a24, modulo }
            },
            None => {
                proof {
                    assert(false);
                }
                MontgomeryPoint { x, z, a24: a, modulo }
            },
        }
    }

    /// Whether `other` is the same point of the same curve: the ratios
    /// `X / Z` are compared, and a `Z` without an inverse equals nothing.
    pub fn equals(&self, other: &MontgomeryPoint) -> (r: bool)
        requires
            self@.modulo > 0,
        ensures
            r == same_point(self@, other@),
    {
        if !integer_eq(&self.modulo, &other.modulo) || !integer_eq(&self.a24, &other.a24) {
            return false;
        }
        match invert_mod(&self.z, &self.modulo) {
            Some(self_z_inv) => match invert_mod(&other.z, &other.modulo) {
                Some(other_z_inv) => {
                    proof {
                        lemma_inverse_unique(value_of(self_z_inv), self@.z, self@.modulo);
                        lemma_inverse_unique(value_of(other_z_inv), other@.z, self@.modulo);
                    }
                    let self_ratio = multiply_mod(&self.x, &self_z_inv, &self.modulo);
                    let other_ratio = multiply_mod(&other.x, &other_z_inv, &self.modulo);
                    integer_eq(&self_ratio, &other_ratio)
                },
                None => false,
            },
            None => false,
        }
    }

    /// A point with the same coordinates, constant and modulus.
    pub fn duplicate(&self) -> (r: MontgomeryPoint)
        ensures
            r@ == self@,
    {
        MontgomeryPoint {
            x: self.x.clone(),
            z: self.z.clone(),
            a24: self.a24.clone(),
            modulo: self.modulo.clone(),
        }
    }

    /// Differential addition: the sum of `self` and `other`, where `diff` is
    /// their difference. Constant and modulus are those of `self`.
    pub fn addh(&self, other: &MontgomeryPoint, diff: &MontgomeryPoint) -> (r: MontgomeryPoint)
        requires
            self@.modulo > 0,
        ensures
            r@ == addh_model(self@, other@, diff@),
            0 <= r@.x < self@.modulo,
            0 <= r@.z < self@.modulo,
    {
        let self_x_min_z = subtract_mod(&self.x, &self.z, &self.modulo);
        let self_x_plus_z = add_mod(&self.x, &self.z, &self.modulo);

        let other_x_min_z = subtract_mod(&other.x, &other.z, &self.modulo);
        let other_x_plus_z = add_mod(&other.x, &other.z, &self.modulo);

        let prod1 = multiply_mod(&self_x_min_z, &other_x_plus_z, &self.modulo);
        let prod2 = multiply_mod(&self_x_plus_z, &other_x_min_z, &self.modulo);

        let addition = add_mod(&prod1, &prod2, &self.modulo);
        let subtraction = subtract_mod(&prod1, &prod2, &self.modulo);

        let sqr1 = multiply_mod(&addition, &addition, &self.modulo);
        let sqr2 = multiply_mod(&subtraction, &subtraction, &self.modulo);

        let x = multiply_mod(&diff.z, &sqr1, &self.modulo);
        let z = multiply_mod(&diff.x, &sqr2, &self.modulo);
        proof {
            let n = self@.modulo;
            let p = self@;
            let q = other@;
            let u = value_of(prod1);
            let v = value_of(prod2);
            lemma_mul_mod_noop_general(p.x - p.z, q.x + q.z, n);
            lemma_mul_mod_noop_general(p.x + p.z, q.x - q.z, n);
            lemma_mul_mod_noop_general(u + v, u + v, n);
            lemma_mul_mod_noop_general(u - v, u - v, n);
            lemma_mul_mod_noop_general(diff@.z, (u + v) * (u + v), n);
            lemma_mul_mod_noop_general(diff@.x, (u - v) * (u - v), n);
        }
        MontgomeryPoint { x, z, a24: self.a24.clone(), modulo: self.modulo.clone() }
    }

    /// Twice the point.
    pub fn double(&self) -> (r: MontgomeryPoint)
        requires
            self@.modulo > 0,
        ensures
            r@ == double_model(self@),
            0 <= r@.x < self@.modulo,
            0 <= r@.z < self@.modulo,
    {
        let self_x_plus_z = add_mod(&self.x, &self.z, &self.modulo);
        let self_x_min_z = subtract_mod(&self.x, &self.z, &self.modulo);

        let u = integer_mul(&self_x_plus_z, &self_x_plus_z);
        let v = integer_mul(&self_x_min_z, &self_x_min_z);

        let diff = integer_sub(&u, &v);
        let x = multiply_mod(&u, &v, &self.modulo);
        let z = take_mod(
            &integer_mul(&diff, &integer_add(&v, &integer_mul(&self.a24, &diff))),
            &self.modulo,
        );
        proof {
            let n = self@.modulo;
            let p = self@;
            let uc = value_of(u);
            let vc = value_of(v);
            let dc = value_of(diff);
            let a = p.a24;
            let um = ((p.x + p.z) * (p.x + p.z)) % n;
            let vm = ((p.x - p.z) * (p.x - p.z)) % n;
            let dm = (um - vm) % n;
            lemma_mul_mod_noop_general(p.x + p.z, p.x + p.z, n);
            lemma_mul_mod_noop_general(p.x - p.z, p.x - p.z, n);
            assert(um == uc % n);
            assert(vm == vc % n);
            lemma_mul_mod_noop_general(uc, vc, n);
            lemma_sub_mod_noop(uc, vc, n);
            assert(dm == dc % n);
            lemma_mod_twice(uc - vc, n);
            lemma_mod_twice(vc, n);
            // d * (v + a24 * d), with each part reduced or not
            lemma_mul_mod_noop_general(dc, vc + a * dc, n);
            lemma_mul_mod_noop_general(dm, vm + a * dm, n);
            lemma_add_mod_noop(vc, a * dc, n);
            lemma_add_mod_noop(vm, a * dm, n);
            lemma_mul_mod_noop_general(a, dc, n);
            lemma_mul_mod_noop_general(a, dm, n);
            assert(dm % n == dm);
            assert(vm % n == vm);
            assert((a * dc) % n == (a * dm) % n);
            assert((vc + a * dc) % n == (vm + a * dm) % n);
            assert((dc * (vc + a * dc)) % n == (dm * (vm + a * dm)) % n);
        }
        MontgomeryPoint { x, z, a24: self.a24.clone(), modulo: self.modulo.clone() }
    }

    /// Scalar multiplication by the Montgomery ladder: the multiple `[k]` of
    /// the point. For `k` zero or one it is the point itself.
    pub fn montgomery_ladder(&self, k: &Integer) -> (r: MontgomeryPoint)
        requires
            self@.modulo > 0,
            value_of(*k) >= 0,
        ensures
            r@ == ladder_model(self@, value_of(*k) as nat),
            value_of(*k) <= 1 ==> r@ == self@,
    {
        let mut q = self.duplicate();
        let mut p = self.double();
        let bv = bits(k);
        let mut b: usize = 1;
        proof {
            crate::arith::misc::lemma_binary_digits_value(value_of(*k) as nat);
            assert(bv@.take(1).drop_last().len() == 0);
            assert(digits_value(bv@.take(1).drop_last()) == 0);
        }
        while b < bv.len()
            invariant
                1 <= b <= bv.len(),
                self@.modulo > 0,
                q@.modulo == self@.modulo,
                p@.modulo == self@.modulo,
                bv@.len() >= 2 ==> digits_value(bv@.take(b as int)) >= 1,
                (q@, p@) == ladder_pair(self@, digits_value(bv@.take(b as int))),
            decreases bv.len() - b,
        {
            proof {
                let s = bv@.take(b as int + 1);
                assert(s.drop_last() =~= bv@.take(b as int));
                assert(s.last() == bv@[b as int]);
            }
            if bv[b] == '1' {
                q = p.addh(&q, self);
                p = p.double();
            } else {
                p = q.addh(&p, self);
                q = q.double();
            }
            b = b + 1;
        }
        proof {
            assert(bv@.take(bv@.len() as int) =~= bv@);
        }
        q
    }
}

} // verus!
