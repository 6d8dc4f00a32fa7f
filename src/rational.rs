use vstd::prelude::*;

use num::bigint::BigInt;
use num::rational::BigRational;
use num::Zero;

verus! {

/// `256^n`.
pub open spec fn pow256(n: nat) -> int
    decreases n,
{
    if n == 0 {
        1
    } else {
        256 * pow256((n - 1) as nat)
    }
}

/// The value of little-endian bytes read as an unsigned number.
pub open spec fn unsigned_value(bs: Seq<u8>) -> int
    decreases bs.len(),
{
    if bs.len() == 0 {
        0
    } else {
        bs[0] + 256 * unsigned_value(bs.drop_first())
    }
}

/// The value of little-endian bytes read in two's complement; no bytes at
/// all read as zero.
pub open spec fn signed_value(bs: Seq<u8>) -> int {
    if bs.len() > 0 && bs.last() >= 128 {
        unsigned_value(bs) - pow256(bs.len())
    } else {
        unsigned_value(bs)
    }
}

/// The greatest common divisor, by Euclid's algorithm (`gcd(a, 0) == a`).
pub open spec fn gcd(a: nat, b: nat) -> nat
    decreases b,
{
    if b == 0 {
        a
    } else {
        gcd(b, a % b)
    }
}

/// `|n|`.
pub open spec fn abs(n: int) -> nat {
    if n < 0 {
        (-n) as nat
    } else {
        n as nat
    }
}

/// The fraction `n / d` (with `d > 0`) in lowest terms.
pub open spec fn lowest(n: int, d: int) -> (int, int) {
    let g = gcd(abs(n), d as nat) as int;
    (n / g, d / g)
}

/// A fraction in lowest terms with a positive denominator: the form in which
/// every rational number has exactly one representation.
pub open spec fn is_lowest(q: (int, int)) -> bool {
    q.1 > 0 && gcd(abs(q.0), q.1 as nat) == 1
}

/// The sum of two fractions, in lowest terms.
pub open spec fn rat_sum(p: (int, int), q: (int, int)) -> (int, int) {
    lowest(p.0 * q.1 + q.0 * p.1, p.1 * q.1)
}

/// The product of two fractions, in lowest terms.
pub open spec fn rat_product(p: (int, int), q: (int, int)) -> (int, int) {
    lowest(p.0 * q.0, p.1 * q.1)
}

/// An exact rational number, held as its numerator and denominator in
/// little-endian two's-complement bytes. Its value is `view().0 / view().1`.
#[derive(Debug, Clone, PartialEq, Eq)]
pub struct Rational {
    pub numer: Vec<u8>,
    pub denom: Vec<u8>,
}

impl View for Rational {
    type V = (int, int);

    open spec fn view(&self) -> (int, int) {
        (signed_value(self.numer@), signed_value(self.denom@))
    }
}

/// Relies on `BigRational::from_integer` and `BigInt::to_signed_bytes_le`:
/// the integer `x` as the fraction `x / 1`.
#[verifier::external_body]
fn rational_from_integer(x: isize) -> (r: Rational)
    ensures
        r@ == (x as int, 1int),
{
    let q = BigRational::from_integer(BigInt::from(x));
    Rational { numer: q.numer().to_signed_bytes_le(), denom: q.denom().to_signed_bytes_le() }
}

/// Relies on `Add` of `BigRational`, which reduces its result (`Ratio::new`),
/// and on `BigInt::from_signed_bytes_le` / `to_signed_bytes_le`.
#[verifier::external_body]
pub(crate) fn rational_add(a: &Rational, b: &Rational) -> (r: Rational)
    requires
        a@.1 > 0,
        b@.1 > 0,
    ensures
        r@ == rat_sum(a@, b@),
        is_lowest(r@),
{
    let x = BigRational::new_raw(
        BigInt::from_signed_bytes_le(&a.numer),
        BigInt::from_signed_bytes_le(&a.denom),
    );
    let y = BigRational::new_raw(
        BigInt::from_signed_bytes_le(&b.numer),
        BigInt::from_signed_bytes_le(&b.denom),
    );
    let s = x + y;
    Rational { numer: s.numer().to_signed_bytes_le(), denom: s.denom().to_signed_bytes_le() }
}

/// Relies on `Mul` of `BigRational`, which reduces its result (`Ratio::new`),
/// and on `BigInt::from_signed_bytes_le` / `to_signed_bytes_le`.
#[verifier::external_body]
pub(crate) fn rational_mul(a: &Rational, b: &Rational) -> (r: Rational)
    requires
        a@.1 > 0,
        b@.1 > 0,
    ensures
        r@ == rat_product(a@, b@),
        is_lowest(r@),
{
    let x = BigRational::new_raw(
        BigInt::from_signed_bytes_le(&a.numer),
        BigInt::from_signed_bytes_le(&a.denom),
    );
    let y = BigRational::new_raw(
        BigInt::from_signed_bytes_le(&b.numer),
        BigInt::from_signed_bytes_le(&b.denom),
    );
    let s = x * y;
    Rational { numer: s.numer().to_signed_bytes_le(), denom: s.denom().to_signed_bytes_le() }
}

/// Relies on `Zero::is_zero` of `BigInt`: whether the numerator is zero.
#[verifier::external_body]
pub(crate) fn rational_is_zero(a: &Rational) -> (r: bool)
    ensures
        r == (a@.0 == 0),
{
    BigInt::from_signed_bytes_le(&a.numer).is_zero()
}

/// `gcd(n, 1) == 1`.
pub proof fn lemma_gcd_one(n: nat)
    ensures
        gcd(n, 1) == 1,
{
    assert(n % 1 == 0);
    assert(gcd(1, 0) == 1);
}

/// The integer `x` as an exact rational number `x / 1`.
pub fn lift_integer(x: isize) -> (r: Rational)
    ensures
        r@ == (x as int, 1int),
        is_lowest(r@),
{
    proof {
        lemma_gcd_one(abs(x as int));
    }
    rational_from_integer(x)
}

impl Rational {
    /// In lowest terms with a positive denominator.
    pub open spec fn wf(&self) -> bool {
        is_lowest(self@)
    }

    /// A copy of the same number.
    pub fn copy(&self) -> (r: Rational)
        ensures
            r@ == self@,
    {
        Rational { numer: self.numer.clone(), denom: self.denom.clone() }
    }
}

} // verus!

verus! {

/// `gcd(a, b)` divides both `a` and `b`: the result gives the quotients.
pub proof fn lemma_gcd_divides(a: nat, b: nat) -> (r: (int, int))
    ensures
        a == gcd(a, b) * r.0,
        b == gcd(a, b) * r.1,
    decreases b,
{
    if b == 0 {
        (1, 0)
    } else {
        let (q1, q2) = lemma_gcd_divides(b, a % b);
        let g = gcd(a, b) as int;
        let k = (a / b) as int;
        assert(a == k * b + a % b) by (nonlinear_arith)
            requires
                b > 0,
                k == a / b,
        ;
        assert(a == g * (k * q1 + q2)) by (nonlinear_arith)
            requires
                a == k * b + a % b,
                b == g * q1,
                a % b == g * q2,
        ;
        (k * q1 + q2, q1)
    }
}

/// Bezout's identity: `a * x + b * y == gcd(a, b)` for some integers.
pub proof fn lemma_bezout(a: nat, b: nat) -> (r: (int, int))
    ensures
        a * r.0 + b * r.1 == gcd(a, b),
    decreases b,
{
    if b == 0 {
        (1, 0)
    } else {
        let (x, y) = lemma_bezout(b, a % b);
        let k = (a / b) as int;
        assert(a == k * b + a % b) by (nonlinear_arith)
            requires
                b > 0,
                k == a / b,
        ;
        assert(a * y + b * (x - k * y) == gcd(a, b)) by (nonlinear_arith)
            requires
                a == k * b + a % b,
                b * x + (a % b) * y == gcd(b, (a % b) as nat),
                gcd(a, b) == gcd(b, (a % b) as nat),
        ;
        (y, x - k * y)
    }
}

/// The gcd with a positive number is positive.
pub proof fn lemma_gcd_pos(a: nat, b: nat)
    requires
        b > 0,
    ensures
        gcd(a, b) > 0,
    decreases b,
{
    if a % b != 0 {
        lemma_gcd_pos(b, a % b);
    } else {
        assert(gcd(b, 0) == b);
    }
}

/// What `lowest` gives: a positive denominator, the same value, and
/// coprime parts (with Bezout coefficients as witness).
pub proof fn lemma_lowest(n: int, d: int) -> (r: (int, int))
    requires
        d > 0,
    ensures
        lowest(n, d).1 > 0,
        n * lowest(n, d).1 == lowest(n, d).0 * d,
        abs(lowest(n, d).0) * r.0 + lowest(n, d).1 * r.1 == 1,
        is_lowest(lowest(n, d)),
{
    let g = gcd(abs(n), d as nat) as int;
    lemma_gcd_pos(abs(n), d as nat);
    let (q1, q2) = lemma_gcd_divides(abs(n), d as nat);
    let (x, y) = lemma_bezout(abs(n), d as nat);
    let a = lowest(n, d).0;
    let e = lowest(n, d).1;
    assert(d / g == q2) by (nonlinear_arith)
        requires
            d == g * q2,
            g > 0,
    ;
    assert(q2 > 0) by (nonlinear_arith)
        requires
            d == g * q2,
            g > 0,
            d > 0,
    ;
    if n >= 0 {
        assert(n / g == q1) by (nonlinear_arith)
            requires
                n == g * q1,
                g > 0,
        ;
        assert(abs(a) == q1) by {
            assert(q1 >= 0) by (nonlinear_arith)
                requires
                    n == g * q1,
                    g > 0,
                    n >= 0,
            ;
        }
    } else {
        assert(n / g == -q1) by (nonlinear_arith)
            requires
                -n == g * q1,
                g > 0,
        ;
        assert(abs(a) == q1) by {
            assert(q1 > 0) by (nonlinear_arith)
                requires
                    -n == g * q1,
                    g > 0,
                    n < 0,
            ;
        }
    }
    assert(n * e == a * d) by (nonlinear_arith)
        requires
            abs(n) == g * q1,
            d == g * q2,
            e == q2,
            abs(a) == q1,
            n >= 0 ==> a == q1 && abs(n) == n,
            n < 0 ==> a == -q1 && abs(n) == -n,
    ;
    assert(q1 * x + q2 * y == 1) by (nonlinear_arith)
        requires
            abs(n) * x + d * y == g,
            abs(n) == g * q1,
            d == g * q2,
            g > 0,
    ;
    let g2 = gcd(abs(a), e as nat) as int;
    lemma_gcd_pos(abs(a), e as nat);
    let (s1, s2) = lemma_gcd_divides(abs(a), e as nat);
    let t = s1 * x + s2 * y;
    assert(g2 * t == 1) by (nonlinear_arith)
        requires
            abs(a) == g2 * s1,
            e == g2 * s2,
            abs(a) * x + e * y == 1,
            t == s1 * x + s2 * y,
    ;
    assert(g2 == 1) by (nonlinear_arith)
        requires
            g2 * t == 1,
            g2 > 0,
    ;
    (x, y)
}

/// Fractions of the same value have the same lowest form.
pub proof fn lemma_lowest_unique(n1: int, d1: int, n2: int, d2: int)
    requires
        d1 > 0,
        d2 > 0,
        n1 * d2 == n2 * d1,
    ensures
        lowest(n1, d1) == lowest(n2, d2),
{
    let (x, y) = lemma_lowest(n1, d1);
    let (x2, y2) = lemma_lowest(n2, d2);
    let a = lowest(n1, d1).0;
    let b = lowest(n1, d1).1;
    let c = lowest(n2, d2).0;
    let e = lowest(n2, d2).1;
    assert(a * e == c * b) by (nonlinear_arith)
        requires
            n1 * b == a * d1,
            n2 * e == c * d2,
            n1 * d2 == n2 * d1,
            d1 > 0,
            d2 > 0,
    ;
    assert(abs(a) * e == abs(c) * b) by (nonlinear_arith)
        requires
            a * e == c * b,
            b > 0,
            e > 0,
            a >= 0 ==> abs(a) == a,
            a < 0 ==> abs(a) == -a,
            c >= 0 ==> abs(c) == c,
            c < 0 ==> abs(c) == -c,
    ;
    assert(e == b * (abs(c) * x + e * y)) by (nonlinear_arith)
        requires
            abs(a) * x + b * y == 1,
            abs(a) * e == abs(c) * b,
    ;
    assert(b == e * (abs(a) * x2 + b * y2)) by (nonlinear_arith)
        requires
            abs(c) * x2 + e * y2 == 1,
            abs(a) * e == abs(c) * b,
    ;
    assert(b == e) by (nonlinear_arith)
        requires
            e == b * (abs(c) * x + e * y),
            b == e * (abs(a) * x2 + b * y2),
            b > 0,
            e > 0,
    ;
    assert(a == c) by (nonlinear_arith)
        requires
            a * e == c * b,
            b == e,
            e > 0,
    ;
}

/// A fraction whose numerator reduces to zero is `0 / 1`.
pub proof fn lemma_lowest_zero(n: int, d: int)
    requires
        d > 0,
        lowest(n, d).0 == 0,
    ensures
        lowest(n, d) == (0int, 1int),
{
    lemma_lowest(n, d);
    assert(n == 0) by (nonlinear_arith)
        requires
            n * lowest(n, d).1 == lowest(n, d).0 * d,
            lowest(n, d).0 == 0,
            lowest(n, d).1 > 0,
    ;
    lemma_lowest_unique(n, d, 0, 1);
    lemma_gcd_one(0);
}

/// Adding zero changes nothing.
pub proof fn lemma_rat_sum_zero(x: (int, int))
    requires
        is_lowest(x),
    ensures
        rat_sum(x, (0int, 1int)) == x,
        rat_sum((0int, 1int), x) == x,
{
    assert(x.0 * 1 + 0 * x.1 == x.0);
    assert(0 * x.1 + x.0 * 1 == x.0);
    assert(x.1 * 1 == x.1);
    assert(1 * x.1 == x.1);
}

/// Adding to the lowest form of `n / d` is adding to `n / d`.
proof fn lemma_rat_sum_lowest_left(n: int, d: int, r: (int, int))
    requires
        d > 0,
        r.1 > 0,
    ensures
        rat_sum(lowest(n, d), r) == lowest(n * r.1 + r.0 * d, d * r.1),
{
    lemma_lowest(n, d);
    let s = lowest(n, d);
    let (s0, s1, r0, r1) = (s.0, s.1, r.0, r.1);
    assert((s0 * r1 + r0 * s1) * (d * r1) == (s0 * d) * (r1 * r1) + r0 * s1 * d * r1) by (nonlinear_arith);
    let w = s1 * r1;
    assert((n * r1 + r0 * d) * w == (n * r1) * w + (r0 * d) * w) by (nonlinear_arith);
    assert((n * r1) * (s1 * r1) == (n * s1) * (r1 * r1)) by (nonlinear_arith);
    assert((r0 * d) * (s1 * r1) == r0 * s1 * d * r1) by (nonlinear_arith);
    assert((s0 * r1 + r0 * s1) * (d * r1) == (n * r1 + r0 * d) * (s1 * r1));
    assert(s.1 * r.1 > 0) by (nonlinear_arith)
        requires
            s.1 > 0,
            r.1 > 0,
    ;
    assert(d * r.1 > 0) by (nonlinear_arith)
        requires
            d > 0,
            r.1 > 0,
    ;
    lemma_lowest_unique(s.0 * r.1 + r.0 * s.1, s.1 * r.1, n * r.1 + r.0 * d, d * r.1);
}

/// The sum of fractions is associative.
pub proof fn lemma_rat_sum_associative(p: (int, int), q: (int, int), r: (int, int))
    requires
        p.1 > 0,
        q.1 > 0,
        r.1 > 0,
    ensures
        rat_sum(rat_sum(p, q), r) == rat_sum(p, rat_sum(q, r)),
{
    assert(p.1 * q.1 > 0) by (nonlinear_arith)
        requires
            p.1 > 0,
            q.1 > 0,
    ;
    assert(q.1 * r.1 > 0) by (nonlinear_arith)
        requires
            q.1 > 0,
            r.1 > 0,
    ;
    lemma_rat_sum_lowest_left(p.0 * q.1 + q.0 * p.1, p.1 * q.1, r);
    lemma_rat_sum_lowest_left(q.0 * r.1 + r.0 * q.1, q.1 * r.1, p);
    let qr = rat_sum(q, r);
    assert(p.1 * qr.1 == qr.1 * p.1) by (nonlinear_arith);
    assert(rat_sum(p, qr) == rat_sum(qr, p));
    let (pn, pd, qn, qd, rn, rd) = (p.0, p.1, q.0, q.1, r.0, r.1);
    assert((pn * qd + qn * pd) * rd == pn * qd * rd + qn * pd * rd) by (nonlinear_arith);
    assert(rn * (pd * qd) == rn * pd * qd) by (nonlinear_arith);
    assert((qn * rd + rn * qd) * pd == qn * rd * pd + rn * qd * pd) by (nonlinear_arith);
    assert(pn * (qd * rd) == pn * qd * rd) by (nonlinear_arith);
    assert(qn * rd * pd == qn * pd * rd) by (nonlinear_arith);
    assert(rn * qd * pd == rn * pd * qd) by (nonlinear_arith);
    assert(p.1 * q.1 * r.1 == q.1 * r.1 * p.1) by (nonlinear_arith);
}

} // verus!
