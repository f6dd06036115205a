use ecm::arith::montgomery_point::MontgomeryPoint;
use rug::Integer;

const P: u64 = 101;
const A: u64 = 10;

fn pow_small(mut base: u64, mut e: u64) -> u64 {
    let mut acc = 1;
    base %= P;
    while e > 0 {
        if e & 1 == 1 {
            acc = acc * base % P;
        }
        base = base * base % P;
        e >>= 1;
    }
    acc
}

fn inv_small(a: u64) -> u64 {
    pow_small(a, P - 2)
}

/// Affine addition on `y^2 = x^3 + A x^2 + x` over the field of `P`
/// elements; `None` is the point at infinity.
fn affine_add(p: Option<(u64, u64)>, q: Option<(u64, u64)>) -> Option<(u64, u64)> {
    let (x1, y1) = match p {
        Some(v) => v,
        None => return q,
    };
    let (x2, y2) = match q {
        Some(v) => v,
        None => return p,
    };
    let lambda = if x1 == x2 {
        if (y1 + y2) % P == 0 {
            return None;
        }
        (3 * x1 * x1 + 2 * A * x1 + 1) % P * inv_small(2 * y1 % P) % P
    } else {
        (y2 + P - y1) % P * inv_small((x2 + P - x1) % P) % P
    };
    let x3 = (lambda * lambda + 3 * P - A - x1 - x2) % P;
    let y3 = (lambda * ((x1 + P - x3) % P) + P - y1) % P;
    Some((x3, y3))
}

fn affine_multiple(p: (u64, u64), k: u64) -> Option<(u64, u64)> {
    let mut acc = None;
    for _ in 0..k {
        acc = affine_add(acc, Some(p));
    }
    acc
}

fn curve_point() -> (u64, u64) {
    for x in 2..P {
        let rhs = (x * x % P * x + A * x % P * x + x) % P;
        for y in 1..P {
            if y * y % P == rhs {
                return (x, y);
            }
        }
    }
    unreachable!()
}

fn ratio(p: &MontgomeryPoint) -> Option<u64> {
    let z = p.z.to_u64().unwrap();
    if z % P == 0 {
        None
    } else {
        Some(p.x.to_u64().unwrap() * inv_small(z) % P)
    }
}

fn projective(x: u64, z: u64) -> MontgomeryPoint {
    MontgomeryPoint::new2(
        Integer::from(x),
        Integer::from(z),
        Integer::from(A),
        Integer::from(P),
    )
}

#[test]
fn new2_divides_by_four() {
    let p = projective(10, 17);
    // (10 + 2) / 4 = 3
    assert_eq!(p.a24, 3);
    assert_eq!(p.modulo, 101);
    assert_eq!((p.x, p.z), (Integer::from(10), Integer::from(17)));
    let q = MontgomeryPoint::new2(
        Integer::from(1),
        Integer::from(1),
        Integer::from(7),
        Integer::from(29),
    );
    // 9 / 4 = 9 * 22 = 198 = 24 modulo 29
    assert_eq!(q.a24, 24);
}

#[test]
fn doubling_agrees_with_affine_doubling() {
    let (x, y) = curve_point();
    let twice = affine_add(Some((x, y)), Some((x, y)));
    let doubled = projective(x, 1).double();
    assert_eq!(ratio(&doubled), twice.map(|p| p.0));
    // the same point with other projective coordinates
    let scaled = projective(x * 5 % P, 5).double();
    assert_eq!(ratio(&scaled), twice.map(|p| p.0));
}

#[test]
fn ladder_agrees_with_affine_multiples() {
    let (x, y) = curve_point();
    let start = projective(x, 1);
    for k in 1..60u64 {
        let expected = affine_multiple((x, y), k).map(|p| p.0);
        let got = start.montgomery_ladder(&Integer::from(k));
        assert_eq!(ratio(&got), expected, "k = {}", k);
    }
}

#[test]
fn ladder_of_one_is_the_point() {
    let p = projective(10, 17);
    let q = p.montgomery_ladder(&Integer::from(1));
    assert_eq!(q, p);
    let r = p.montgomery_ladder(&Integer::from(0));
    assert_eq!(r, p);
    let twice = p.montgomery_ladder(&Integer::from(2));
    assert_eq!(twice, p.double());
}

#[test]
fn ladders_compose() {
    let (x, _) = curve_point();
    let start = projective(x, 1);
    for (a, b) in [(2u32, 3u32), (3, 5), (4, 4), (7, 2), (5, 9)] {
        let one = start
            .montgomery_ladder(&Integer::from(a))
            .montgomery_ladder(&Integer::from(b));
        let other = start.montgomery_ladder(&Integer::from(a * b));
        assert_eq!(ratio(&one), ratio(&other), "{} * {}", a, b);
        if ratio(&one).is_some() {
            assert!(one.equals(&other));
        }
    }
}

#[test]
fn equality_compares_ratios() {
    let p = projective(10, 17);
    let same = projective(20, 34);
    let other = projective(10, 18);
    assert!(p.equals(&same));
    assert!(same.equals(&p));
    assert!(!p.equals(&other));
    // a Z coordinate without an inverse equals nothing, not even itself
    let flat = projective(10, 0);
    assert!(!flat.equals(&flat));
    assert!(!p.equals(&flat));
    // another curve constant or another modulus
    let curve = MontgomeryPoint::new(
        Integer::from(10),
        Integer::from(17),
        Integer::from(4),
        Integer::from(101),
    );
    assert!(!p.equals(&curve));
    let modulus = MontgomeryPoint::new(
        Integer::from(10),
        Integer::from(17),
        Integer::from(3),
        Integer::from(103),
    );
    assert!(!p.equals(&modulus));
}

#[test]
fn duplicate_is_equal() {
    let p = projective(10, 17);
    assert_eq!(p.duplicate(), p);
}

#[test]
fn addh_formula() {
    // X = D.Z (u + v)^2, Z = D.X (u - v)^2 with
    // u = (13 - 10)(11 + 16) = 81 = 23, v = (13 + 10)(11 - 16) = -115 = 1
    // modulo 29: X = 16 * 24^2 = 23, Z = 11 * 22^2 = 17
    let p1 = MontgomeryPoint::new(
        Integer::from(11),
        Integer::from(16),
        Integer::from(7),
        Integer::from(29),
    );
    let p2 = MontgomeryPoint::new(
        Integer::from(13),
        Integer::from(10),
        Integer::from(7),
        Integer::from(29),
    );
    let sum = p2.addh(&p1, &p1);
    assert_eq!(sum.x, 16 * 24 * 24 % 29);
    assert_eq!(sum.z, 11 * 22 * 22 % 29);
    assert_eq!(sum.a24, 7);
    assert_eq!(sum.modulo, 29);
}
