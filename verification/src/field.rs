//! The toy scalar field over which the loader folds constants: integers
//! modulo a small prime, small enough that every product of two reduced
//! elements fits in a `u64`.

use vstd::arithmetic::div_mod::{lemma_add_mod_noop, lemma_small_mod};
use vstd::prelude::*;

verus! {

/// Order of the toy scalar field (a small prime).
pub const FIELD_ORDER: u64 = 251;

/// An element of the toy scalar field; well-formed values keep `n` reduced.
#[derive(Clone, Copy, Debug, PartialEq, Eq, Structural)]
pub struct Fe {
    pub n: u64,
}

/// A field element is well-formed when it is fully reduced.
pub open spec fn fe_wf(a: Fe) -> bool {
    a.n < FIELD_ORDER
}

pub open spec fn fe_zero() -> Fe {
    Fe { n: 0 }
}

pub open spec fn fe_one() -> Fe {
    Fe { n: 1 }
}

pub open spec fn fe_add(a: Fe, b: Fe) -> Fe {
    Fe { n: ((a.n + b.n) % (FIELD_ORDER as int)) as u64 }
}

pub open spec fn fe_sub(a: Fe, b: Fe) -> Fe {
    Fe { n: ((a.n - b.n) % (FIELD_ORDER as int)) as u64 }
}

pub open spec fn fe_mul(a: Fe, b: Fe) -> Fe {
    Fe { n: ((a.n * b.n) % (FIELD_ORDER as int)) as u64 }
}

pub open spec fn fe_neg(a: Fe) -> Fe {
    Fe { n: ((FIELD_ORDER - a.n) % (FIELD_ORDER as int)) as u64 }
}

/// Whether `a` has a multiplicative inverse in the toy field.
pub open spec fn fe_has_inv(a: Fe) -> bool {
    exists|w: Fe| fe_wf(w) && #[trigger] fe_mul(a, w) == fe_one()
}

impl Fe {
    /// Builds a field element from an arbitrary integer by reducing it.
    pub fn new(n: u64) -> (r: Fe)
        ensures
            r.n == n % FIELD_ORDER,
            fe_wf(r),
    {
        Fe { n: n % FIELD_ORDER }
    }

    pub fn zero() -> (r: Fe)
        ensures
            r == fe_zero(),
            fe_wf(r),
    {
        Fe { n: 0 }
    }

    pub fn one() -> (r: Fe)
        ensures
            r == fe_one(),
            fe_wf(r),
    {
        Fe { n: 1 }
    }

    pub fn add(self, other: Fe) -> (r: Fe)
        requires
            fe_wf(self),
            fe_wf(other),
        ensures
            r == fe_add(self, other),
            fe_wf(r),
    {
        Fe { n: (self.n + other.n) % FIELD_ORDER }
    }

    pub fn sub(self, other: Fe) -> (r: Fe)
        requires
            fe_wf(self),
            fe_wf(other),
        ensures
            r == fe_sub(self, other),
            fe_wf(r),
    {
        proof {
            vstd::arithmetic::div_mod::lemma_mod_add_multiples_vanish(
                self.n - other.n,
                FIELD_ORDER as int,
            );
        }
        Fe { n: (self.n + FIELD_ORDER - other.n) % FIELD_ORDER }
    }

    pub fn mul(self, other: Fe) -> (r: Fe)
        requires
            fe_wf(self),
            fe_wf(other),
        ensures
            r == fe_mul(self, other),
            fe_wf(r),
    {
        proof {
            assert(self.n * other.n < 251 * 251) by (nonlinear_arith)
                requires
                    self.n < 251,
                    other.n < 251,
            ;
        }
        Fe { n: (self.n * other.n) % FIELD_ORDER }
    }

    pub fn neg(self) -> (r: Fe)
        requires
            fe_wf(self),
        ensures
            r == fe_neg(self),
            fe_wf(r),
    {
        Fe { n: (FIELD_ORDER - self.n) % FIELD_ORDER }
    }

    /// Returns the smallest multiplicative inverse of `self`, or `None` when
    /// no element of the field inverts `self`.
    pub fn invert(self) -> (r: Option<Fe>)
        requires
            fe_wf(self),
        ensures
            match r {
                Some(w) => fe_wf(w) && fe_mul(self, w) == fe_one() && (forall|y: Fe|
                    fe_wf(y) && y.n < w.n ==> #[trigger] fe_mul(self, y) != fe_one()),
                None => forall|y: Fe| fe_wf(y) ==> #[trigger] fe_mul(self, y) != fe_one(),
            },
            r is Some <==> fe_has_inv(self),
    {
        let mut x: u64 = 0;
        while x < FIELD_ORDER
            invariant
                fe_wf(self),
                x <= FIELD_ORDER,
                forall|y: Fe| fe_wf(y) && y.n < x ==> #[trigger] fe_mul(self, y) != fe_one(),
            decreases FIELD_ORDER - x,
        {
            let cand = Fe { n: x };
            if self.mul(cand).n == 1 {
                proof {
                    assert(fe_wf(cand) && fe_mul(self, cand) == fe_one());
                }
                return Some(cand);
            }
            x = x + 1;
        }
        None
    }
}

/// Whether `d` divides `n` over the integers.
spec fn divides(d: int, n: int) -> bool {
    exists|k: int| n == #[trigger] (d * k)
}

/// The greatest common divisor, by Euclid's recursion.
spec fn gcd(a: int, b: int) -> int
    decreases b,
{
    if b <= 0 {
        a
    } else {
        gcd(b, a % b)
    }
}

/// The greatest common divisor of two nonnegative numbers is nonnegative.
proof fn lemma_gcd_nonneg(a: int, b: int)
    requires
        a >= 0,
        b >= 0,
    ensures
        gcd(a, b) >= 0,
    decreases b,
{
    if b > 0 {
        lemma_gcd_nonneg(b, a % b);
    }
}

/// The greatest common divisor divides both of its arguments.
proof fn lemma_gcd_divides(a: int, b: int)
    requires
        a >= 0,
        b >= 0,
    ensures
        divides(gcd(a, b), a),
        divides(gcd(a, b), b),
    decreases b,
{
    let g = gcd(a, b);
    if b <= 0 {
        assert(a == a * 1);
        assert(a == g * 1);
        assert(b == g * 0);
    } else {
        lemma_gcd_divides(b, a % b);
        vstd::arithmetic::div_mod::lemma_fundamental_div_mod(a, b);
        let k1 = choose|k: int| b == #[trigger] (g * k);
        let k2 = choose|k: int| (a % b) == #[trigger] (g * k);
        assert(a == g * (k1 * (a / b) + k2)) by (nonlinear_arith)
            requires
                a == b * (a / b) + (a % b),
                b == g * k1,
                a % b == g * k2,
        ;
    }
}

/// Bezout's identity: returns coefficients combining the arguments into
/// their greatest common divisor.
proof fn lemma_bezout(a: int, b: int) -> (r: (int, int))
    requires
        a >= 0,
        b >= 0,
    ensures
        a * r.0 + b * r.1 == gcd(a, b),
    decreases b,
{
    if b <= 0 {
        assert(a * 1 + b * 0 == a) by (nonlinear_arith)
            requires
                b == 0,
        ;
        (1int, 0int)
    } else {
        let (x, y) = lemma_bezout(b, a % b);
        vstd::arithmetic::div_mod::lemma_fundamental_div_mod(a, b);
        let r = (y, x - (a / b) * y);
        assert(a * r.0 + b * r.1 == gcd(b, a % b)) by (nonlinear_arith)
            requires
                b * x + (a % b) * y == gcd(b, a % b),
                a == b * (a / b) + (a % b),
                r == (y, x - (a / b) * y),
        ;
        r
    }
}

/// No number in `2 ..= d` divides `n`.
spec fn no_divisor_upto(n: int, d: int) -> bool
    decreases d,
{
    if d < 2 {
        true
    } else {
        n % d != 0 && no_divisor_upto(n, d - 1)
    }
}

proof fn lemma_no_divisor_upto(n: int, d: int, e: int)
    requires
        no_divisor_upto(n, d),
        2 <= e <= d,
    ensures
        n % e != 0,
    decreases d,
{
    if e < d {
        lemma_no_divisor_upto(n, d - 1, e);
    }
}

/// The toy field order is prime: it has no divisor strictly between one and
/// itself. Trial division covers candidates up to 15; any larger divisor
/// would pair with a cofactor in that range.
proof fn lemma_field_order_prime(d: int)
    requires
        2 <= d < FIELD_ORDER,
    ensures
        !divides(d, FIELD_ORDER as int),
{
    let p = FIELD_ORDER as int;
    assert(no_divisor_upto(251, 1));
    assert(251int % 2 != 0);
    assert(no_divisor_upto(251, 2));
    assert(251int % 3 != 0);
    assert(no_divisor_upto(251, 3));
    assert(251int % 4 != 0);
    assert(no_divisor_upto(251, 4));
    assert(251int % 5 != 0);
    assert(no_divisor_upto(251, 5));
    assert(251int % 6 != 0);
    assert(no_divisor_upto(251, 6));
    assert(251int % 7 != 0);
    assert(no_divisor_upto(251, 7));
    assert(251int % 8 != 0);
    assert(no_divisor_upto(251, 8));
    assert(251int % 9 != 0);
    assert(no_divisor_upto(251, 9));
    assert(251int % 10 != 0);
    assert(no_divisor_upto(251, 10));
    assert(251int % 11 != 0);
    assert(no_divisor_upto(251, 11));
    assert(251int % 12 != 0);
    assert(no_divisor_upto(251, 12));
    assert(251int % 13 != 0);
    assert(no_divisor_upto(251, 13));
    assert(251int % 14 != 0);
    assert(no_divisor_upto(251, 14));
    assert(251int % 15 != 0);
    assert(no_divisor_upto(251, 15));
    if divides(d, p) {
        let k = choose|k: int| p == #[trigger] (d * k);
        assert(k >= 2) by (nonlinear_arith)
            requires
                p == d * k,
                2 <= d < p,
                p == 251,
        ;
        assert(d <= 15 || k <= 15) by (nonlinear_arith)
            requires
                p == d * k,
                p == 251,
                d >= 2,
                k >= 2,
        ;
        let e = if d <= 15 {
            d
        } else {
            k
        };
        assert(p % e == 0) by {
            if d <= 15 {
                vstd::arithmetic::div_mod::lemma_mod_multiples_basic(k, d);
                assert(p == k * d) by (nonlinear_arith)
                    requires
                        p == d * k,
                ;
            } else {
                vstd::arithmetic::div_mod::lemma_mod_multiples_basic(d, k);
                assert(p == d * k);
            }
        }
        lemma_no_divisor_upto(251, 15, e);
        assert(false);
    }
}

/// Every nonzero element of the toy field has a multiplicative inverse,
/// since the field order is prime: Bezout coefficients for the element and
/// the order yield the inverse.
pub proof fn lemma_fe_nonzero_has_inv(a: Fe)
    requires
        fe_wf(a),
        a != fe_zero(),
    ensures
        fe_has_inv(a),
{
    let p = FIELD_ORDER as int;
    let n = a.n as int;
    assert(n > 0);
    let g = gcd(p, n);
    lemma_gcd_nonneg(p, n);
    lemma_gcd_divides(p, n);
    let kn = choose|k: int| n == #[trigger] (g * k);
    if g == 0 {
        assert(n == 0 * kn);
        assert(false);
    }
    if g >= 2 {
        if g >= p {
            assert(false) by (nonlinear_arith)
                requires
                    n == g * kn,
                    0 < n < p,
                    g >= p,
            ;
        }
        lemma_field_order_prime(g);
        assert(false);
    }
    assert(g == 1);
    let (x, y) = lemma_bezout(p, n);
    assert(p * x + n * y == 1);
    let w_val = y % p;
    vstd::arithmetic::div_mod::lemma_mod_bound(y, p);
    let w = Fe { n: w_val as u64 };
    vstd::arithmetic::div_mod::lemma_mul_mod_noop_right(n, y, p);
    vstd::arithmetic::div_mod::lemma_mod_multiples_vanish(-x, 1, p);
    assert(n * y == p * (-x) + 1) by (nonlinear_arith)
        requires
            p * x + n * y == 1,
    ;
    lemma_small_mod(1nat, FIELD_ORDER as nat);
    assert((n * w_val) % p == 1);
    assert(fe_mul(a, w) == fe_one());
    assert(fe_wf(w) && fe_mul(a, w) == fe_one());
}

/// The result of a field operation is always reduced.
pub proof fn lemma_fe_ops_wf(a: Fe, b: Fe)
    ensures
        fe_wf(fe_add(a, b)),
        fe_wf(fe_sub(a, b)),
        fe_wf(fe_mul(a, b)),
        fe_wf(fe_neg(a)),
{
    let p = FIELD_ORDER as int;
    vstd::arithmetic::div_mod::lemma_mod_bound(a.n + b.n, p);
    vstd::arithmetic::div_mod::lemma_mod_bound(a.n - b.n, p);
    vstd::arithmetic::div_mod::lemma_mod_bound(a.n * b.n, p);
    vstd::arithmetic::div_mod::lemma_mod_bound(FIELD_ORDER - a.n, p);
}

/// Addition in the toy field is commutative.
pub proof fn lemma_fe_add_comm(a: Fe, b: Fe)
    ensures
        fe_add(a, b) == fe_add(b, a),
{
}

/// Addition in the toy field is associative.
pub proof fn lemma_fe_add_assoc(a: Fe, b: Fe, c: Fe)
    requires
        fe_wf(a),
        fe_wf(b),
        fe_wf(c),
    ensures
        fe_add(fe_add(a, b), c) == fe_add(a, fe_add(b, c)),
{
    let p = FIELD_ORDER as int;
    lemma_small_mod(a.n as nat, FIELD_ORDER as nat);
    lemma_small_mod(c.n as nat, FIELD_ORDER as nat);
    lemma_add_mod_noop(a.n + b.n, c.n as int, p);
    lemma_add_mod_noop(a.n as int, b.n + c.n, p);
    assert(fe_add(fe_add(a, b), c).n == (a.n + b.n + c.n) % p);
    assert(fe_add(a, fe_add(b, c)).n == (a.n + b.n + c.n) % p);
}

/// Zero is the additive identity of the toy field.
pub proof fn lemma_fe_add_zero(a: Fe)
    requires
        fe_wf(a),
    ensures
        fe_add(fe_zero(), a) == a,
{
    lemma_small_mod(a.n as nat, FIELD_ORDER as nat);
}

/// Multiplication in the toy field is commutative.
pub proof fn lemma_fe_mul_comm(a: Fe, b: Fe)
    ensures
        fe_mul(a, b) == fe_mul(b, a),
{
}

/// Adding a negated element is subtraction.
pub proof fn lemma_fe_add_neg(a: Fe, b: Fe)
    requires
        fe_wf(a),
        fe_wf(b),
    ensures
        fe_add(a, fe_neg(b)) == fe_sub(a, b),
{
    let p = FIELD_ORDER as int;
    vstd::arithmetic::div_mod::lemma_add_mod_noop_right(a.n as int, p - b.n, p);
    vstd::arithmetic::div_mod::lemma_mod_add_multiples_vanish(a.n - b.n, p);
    assert(a.n + (p - b.n) == p + (a.n - b.n));
}

/// Multiplying by the negation of one negates an element.
pub proof fn lemma_fe_mul_neg_one(a: Fe)
    requires
        fe_wf(a),
    ensures
        fe_mul(fe_neg(fe_one()), a) == fe_neg(a),
{
    let p = FIELD_ORDER as int;
    lemma_small_mod((FIELD_ORDER - 1) as nat, FIELD_ORDER as nat);
    assert(fe_neg(fe_one()).n == p - 1);
    vstd::arithmetic::div_mod::lemma_mod_multiples_vanish(a.n as int, -(a.n as int), p);
    assert((p - 1) * a.n == p * a.n + (-(a.n as int))) by (nonlinear_arith);
    vstd::arithmetic::div_mod::lemma_mod_add_multiples_vanish(-(a.n as int), p);
    assert(fe_mul(fe_neg(fe_one()), a).n == ((p - 1) * a.n) % p);
    assert(fe_neg(a).n == (p - a.n) % p);
    assert(p + (-(a.n as int)) == p - a.n);
}

/// One is the multiplicative identity of the toy field.
pub proof fn lemma_fe_mul_one(a: Fe)
    requires
        fe_wf(a),
    ensures
        fe_mul(fe_one(), a) == a,
{
    lemma_small_mod(a.n as nat, FIELD_ORDER as nat);
}

} // verus!
