//! The prime field of the constraint system: integers modulo the Mersenne
//! prime 2^31 - 1, each element held by its reduced representative.

use vstd::prelude::*;

verus! {

/// The field modulus, 2^31 - 1.
pub const MODULUS: u32 = 0x7fff_ffff;

pub open spec fn modulus() -> int {
    MODULUS as int
}

/// A field element, held as its representative in `0..MODULUS`.
#[derive(Clone, Copy, Debug, PartialEq, Eq, Structural)]
pub struct Mersenne31Field {
    pub v: u32,
}

/// `a` has a multiplicative inverse modulo the field modulus.
pub open spec fn has_inverse(a: int) -> bool {
    exists|y: int| 0 <= y < modulus() && #[trigger] ((a * y) % modulus()) == 1
}

impl Mersenne31Field {
    /// The element's representative.
    pub open spec fn val(self) -> int {
        self.v as int
    }

    /// The representative is reduced.
    pub open spec fn wf(self) -> bool {
        self.v < MODULUS
    }

    pub open spec fn spec_from_int(x: int) -> Mersenne31Field
        recommends
            0 <= x < modulus(),
    {
        Mersenne31Field { v: x as u32 }
    }

    pub fn zero() -> (r: Self)
        ensures
            r.wf(),
            r.val() == 0,
    {
        Mersenne31Field { v: 0 }
    }

    pub fn one() -> (r: Self)
        ensures
            r.wf(),
            r.val() == 1,
    {
        Mersenne31Field { v: 1 }
    }

    pub fn minus_one() -> (r: Self)
        ensures
            r.wf(),
            r.val() == modulus() - 1,
    {
        Mersenne31Field { v: MODULUS - 1 }
    }

    /// The element congruent to `x`.
    pub fn from_u64(x: u64) -> (r: Self)
        ensures
            r.wf(),
            r.val() == x as int % modulus(),
    {
        Mersenne31Field { v: (x % (MODULUS as u64)) as u32 }
    }

    /// The reduced representative as an integer.
    pub fn as_u64_reduced(&self) -> (r: u64)
        requires
            self.wf(),
        ensures
            r as int == self.val(),
    {
        self.v as u64
    }

    pub fn is_zero(&self) -> (r: bool)
        ensures
            r == (self.val() == 0),
    {
        self.v == 0
    }

    pub fn add(&self, other: &Self) -> (r: Self)
        requires
            self.wf(),
            other.wf(),
        ensures
            r.wf(),
            r.val() == (self.val() + other.val()) % modulus(),
    {
        Mersenne31Field { v: (self.v + other.v) % MODULUS }
    }

    pub fn negate(&self) -> (r: Self)
        requires
            self.wf(),
        ensures
            r.wf(),
            r.val() == (modulus() - self.val()) % modulus(),
    {
        if self.v == 0 {
            proof {
                vstd::arithmetic::div_mod::lemma_mod_self_0(modulus());
            }
            Mersenne31Field { v: 0 }
        } else {
            proof {
                vstd::arithmetic::div_mod::lemma_small_mod((modulus() - self.val()) as nat, modulus() as nat);
            }
            Mersenne31Field { v: MODULUS - self.v }
        }
    }

    pub fn sub(&self, other: &Self) -> (r: Self)
        requires
            self.wf(),
            other.wf(),
        ensures
            r.wf(),
            r.val() == (self.val() - other.val()) % modulus(),
    {
        proof {
            vstd::arithmetic::div_mod::lemma_mod_add_multiples_vanish(
                self.val() - other.val(),
                modulus(),
            );
        }
        Mersenne31Field { v: (self.v + (MODULUS - other.v)) % MODULUS }
    }

    pub fn mul(&self, other: &Self) -> (r: Self)
        requires
            self.wf(),
            other.wf(),
        ensures
            r.wf(),
            r.val() == (self.val() * other.val()) % modulus(),
    {
        assert((self.v as u64) * (other.v as u64) < 0x4000_0000_0000_0000) by (nonlinear_arith)
            requires
                self.v < 0x8000_0000,
                other.v < 0x8000_0000,
        ;
        let p = (self.v as u64) * (other.v as u64);
        Mersenne31Field { v: (p % (MODULUS as u64)) as u32 }
    }

    /// The multiplicative inverse, found by the extended Euclidean
    /// algorithm; `None` when there is none (for this prime modulus: zero).
    pub fn inverse(&self) -> (r: Option<Self>)
        requires
            self.wf(),
        ensures
            r.is_some() == has_inverse(self.val()),
            r matches Some(y) ==> y.wf() && (self.val() * y.val()) % modulus() == 1,
    {
        let p: i64 = MODULUS as i64;
        let a: i64 = self.v as i64;
        let mut r0: i64 = p;
        let mut r1: i64 = a;
        let mut s0: i64 = 0;
        let mut s1: i64 = 1;
        assert(abs(s1 as int) == 1 && abs(s0 as int) == 0);
        assert(r0 as int * abs(s1 as int) + r1 as int * abs(s0 as int) == p as int) by (nonlinear_arith)
            requires
                abs(s1 as int) == 1,
                abs(s0 as int) == 0,
                r0 == p,
        ;
        assert forall|d: int| d > 0 implies (#[trigger] common_divisor(d, r0 as int, r1 as int)
            <==> common_divisor(d, p as int, a as int)) by {}
        assert(s1 as int * a as int - r1 as int == 0);
        assert((s1 as int * a as int - r1 as int) % (p as int) == 0) by {
            vstd::arithmetic::div_mod::lemma_small_mod(0, p as nat);
        }
        while r1 != 0
            invariant
                p == modulus(),
                0 <= a < p,
                0 <= r1 < r0 <= p,
                (s0 as int * a as int - r0 as int) % (p as int) == 0,
                (s1 as int * a as int - r1 as int) % (p as int) == 0,
                r0 as int * abs(s1 as int) + r1 as int * abs(s0 as int) == p as int,
                s0 as int * s1 as int <= 0,
                abs(s0 as int) <= p,
                abs(s1 as int) <= p,
                same_divisors(r0 as int, r1 as int, p as int, a as int),
            decreases r1,
        {
            let q = r0 / r1;
            proof {
                lemma_euclid_step(p as int, a as int, r0 as int, r1 as int, s0 as int, s1 as int, q as int);
            }
            let r2 = r0 - q * r1;
            let s2 = s0 - q * s1;
            r0 = r1;
            r1 = r2;
            s0 = s1;
            s1 = s2;
        }
        if r0 == 1 {
            let y = if s0 < 0 { s0 + p } else { s0 };
            proof {
                lemma_inverse_found(p as int, a as int, s0 as int, y as int);
            }
            Some(Mersenne31Field { v: y as u32 })
        } else {
            proof {
                lemma_no_inverse(p as int, a as int, r0 as int);
            }
            None
        }
    }
}

pub open spec fn common_divisor(d: int, x: int, y: int) -> bool {
    x % d == 0 && y % d == 0
}

/// `x, y` have the same positive common divisors as `p, a`.
pub open spec fn same_divisors(x: int, y: int, p: int, a: int) -> bool {
    forall|d: int| d > 0 ==> (#[trigger] common_divisor(d, x, y) <==> common_divisor(d, p, a))
}

pub open spec fn abs(x: int) -> int {
    if x < 0 { -x } else { x }
}

proof fn lemma_euclid_step(p: int, a: int, r0: int, r1: int, s0: int, s1: int, q: int)
    requires
        p > 0,
        0 <= a < p,
        0 < r1 < r0 <= p,
        q == r0 / r1,
        (s0 * a - r0) % p == 0,
        (s1 * a - r1) % p == 0,
        r0 * abs(s1) + r1 * abs(s0) == p,
        s0 * s1 <= 0,
        same_divisors(r0, r1, p, a),
    ensures
        0 <= r0 - q * r1 < r1,
        q >= 1,
        q * r1 <= r0,
        abs(s0 - q * s1) <= p,
        abs(q * s1) <= p,
        (s1 * a - r1) % p == 0,
        ((s0 - q * s1) * a - (r0 - q * r1)) % p == 0,
        r1 * abs(s0 - q * s1) + (r0 - q * r1) * abs(s1) == p,
        s1 * (s0 - q * s1) <= 0,
        same_divisors(r1, r0 - q * r1, p, a),
{
    let r2 = r0 - q * r1;
    vstd::arithmetic::div_mod::lemma_fundamental_div_mod(r0, r1);
    assert(r2 == r0 % r1) by (nonlinear_arith)
        requires
            r0 == r1 * (r0 / r1) + r0 % r1,
            q == r0 / r1,
            r2 == r0 - q * r1,
    ;
    vstd::arithmetic::div_mod::lemma_mod_bound(r0, r1);
    assert(q >= 1) by (nonlinear_arith)
        requires
            r0 == r1 * q + r0 % r1,
            r0 % r1 < r1,
            r0 % r1 >= 0,
            r1 < r0,
            r1 > 0,
    ;
    assert(q * r1 <= r0);
    // sign alternation and the size identity
    let s2 = s0 - q * s1;
    assert(abs(s2) == abs(s0) + q * abs(s1)) by (nonlinear_arith)
        requires
            s2 == s0 - q * s1,
            s0 * s1 <= 0,
            q >= 1,
    ;
    assert(r1 * abs(s2) + r2 * abs(s1) == p) by (nonlinear_arith)
        requires
            abs(s2) == abs(s0) + q * abs(s1),
            r2 == r0 - q * r1,
            r0 * abs(s1) + r1 * abs(s0) == p,
    ;
    assert(s1 * s2 <= 0) by (nonlinear_arith)
        requires
            s2 == s0 - q * s1,
            s0 * s1 <= 0,
            q >= 1,
    ;
    assert(abs(s2) <= p) by (nonlinear_arith)
        requires
            r1 * abs(s2) + r2 * abs(s1) == p,
            r1 >= 1,
            r2 >= 0,
            abs(s1) >= 0,
            abs(s2) >= 0,
    ;
    assert(abs(q * s1) == q * abs(s1)) by (nonlinear_arith)
        requires
            q >= 1,
    ;
    assert((s2 * a - r2) == (s0 * a - r0) - q * (s1 * a - r1)) by (nonlinear_arith)
        requires
            s2 == s0 - q * s1,
            r2 == r0 - q * r1,
    ;
    vstd::arithmetic::div_mod::lemma_mod_multiples_vanish(q, 0, p);
    assert(((s0 * a - r0) - q * (s1 * a - r1)) % p == 0) by {
        let x = s0 * a - r0;
        let y = s1 * a - r1;
        vstd::arithmetic::div_mod::lemma_fundamental_div_mod(x, p);
        vstd::arithmetic::div_mod::lemma_fundamental_div_mod(y, p);
        let kx = x / p;
        let ky = y / p;
        assert(x == p * kx);
        assert(y == p * ky);
        assert(x - q * y == p * (kx - q * ky)) by (nonlinear_arith)
            requires
                x == p * kx,
                y == p * ky,
        ;
        vstd::arithmetic::div_mod::lemma_mod_multiples_basic(kx - q * ky, p);
        assert((kx - q * ky) * p == p * (kx - q * ky)) by (nonlinear_arith);
    }
    assert forall|d: int| d > 0 implies (#[trigger] common_divisor(d, r1, r2) <==> common_divisor(d, p, a)) by {
        assert(common_divisor(d, r0, r1) <==> common_divisor(d, p, a));
        if r1 % d == 0 && r2 % d == 0 {
            vstd::arithmetic::div_mod::lemma_fundamental_div_mod(r1, d);
            vstd::arithmetic::div_mod::lemma_fundamental_div_mod(r2, d);
            let k1 = r1 / d;
            let k2 = r2 / d;
            assert(r0 == d * (k2 + q * k1)) by (nonlinear_arith)
                requires
                    r1 == d * k1,
                    r2 == d * k2,
                    r2 == r0 - q * r1,
            ;
            vstd::arithmetic::div_mod::lemma_mod_multiples_basic(k2 + q * k1, d);
            assert((k2 + q * k1) * d == d * (k2 + q * k1)) by (nonlinear_arith);
        }
        if r0 % d == 0 && r1 % d == 0 {
            vstd::arithmetic::div_mod::lemma_fundamental_div_mod(r0, d);
            vstd::arithmetic::div_mod::lemma_fundamental_div_mod(r1, d);
            let k0 = r0 / d;
            let k1 = r1 / d;
            assert(r2 == d * (k0 - q * k1)) by (nonlinear_arith)
                requires
                    r0 == d * k0,
                    r1 == d * k1,
                    r2 == r0 - q * r1,
            ;
            vstd::arithmetic::div_mod::lemma_mod_multiples_basic(k0 - q * k1, d);
            assert((k0 - q * k1) * d == d * (k0 - q * k1)) by (nonlinear_arith);
        }
    }
}

proof fn lemma_inverse_found(p: int, a: int, s0: int, y: int)
    requires
        p == modulus(),
        0 <= a < p,
        (s0 * a - 1) % p == 0,
        abs(s0) <= p,
        y == if s0 < 0 { s0 + p } else { s0 },
    ensures
        0 <= y < p,
        (a * y) % p == 1,
{
    vstd::arithmetic::div_mod::lemma_fundamental_div_mod(s0 * a - 1, p);
    let k = (s0 * a - 1) / p;
    assert(s0 * a - 1 == p * k);
    if s0 < 0 {
        assert(a * y == 1 + p * (k + a)) by (nonlinear_arith)
            requires
                s0 * a - 1 == p * k,
                y == s0 + p,
        ;
    } else {
        assert(a * y == 1 + p * k) by (nonlinear_arith)
            requires
                s0 * a - 1 == p * k,
                y == s0,
        ;
    }
    if y == p {
        // then s0 == p, so s0 * a - 1 == p * a - 1 cannot be a multiple of p
        assert(a * y == 1 + p * (if s0 < 0 { k + a } else { k }));
        assert(false) by (nonlinear_arith)
            requires
                y == p,
                a * y == 1 + p * (if s0 < 0 { k + a } else { k }),
                p > 1,
        ;
    }
    let kk = if s0 < 0 { k + a } else { k };
    assert(a * y == kk * p + 1) by (nonlinear_arith)
        requires
            a * y == 1 + p * kk,
    ;
    vstd::arithmetic::div_mod::lemma_mod_multiples_vanish(kk, 1, p);
    vstd::arithmetic::div_mod::lemma_small_mod(1nat, p as nat);
}

proof fn lemma_no_inverse(p: int, a: int, g: int)
    requires
        p == modulus(),
        0 <= a < p,
        g > 0,
        g != 1,
        same_divisors(g, 0, p, a),
    ensures
        !has_inverse(a),
{
    assert(g % g == 0) by {
        vstd::arithmetic::div_mod::lemma_mod_self_0(g);
    }
    assert(0int % g == 0);
    assert(common_divisor(g, g, 0));
    assert(p % g == 0 && a % g == 0);
    if has_inverse(a) {
        let y = choose|y: int| 0 <= y < modulus() && #[trigger] ((a * y) % modulus()) == 1;
        vstd::arithmetic::div_mod::lemma_fundamental_div_mod(a * y, p);
        let k = (a * y) / p;
        vstd::arithmetic::div_mod::lemma_fundamental_div_mod(a, g);
        vstd::arithmetic::div_mod::lemma_fundamental_div_mod(p, g);
        let ka = a / g;
        let kp = p / g;
        assert(1 == g * (ka * y - kp * k)) by (nonlinear_arith)
            requires
                a * y == p * k + 1,
                a == g * ka,
                p == g * kp,
        ;
        assert(false) by (nonlinear_arith)
            requires
                1 == g * (ka * y - kp * k),
                g > 1,
        ;
    }
}

} // verus!
