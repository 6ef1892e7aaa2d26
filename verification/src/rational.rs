//! Rational numbers with 64-bit parts.
//!
//! A [`Q`] is a fraction in lowest terms with a positive denominator. The
//! arithmetic is `num_rational`'s; [`q_add`] and its siblings say what it
//! returns, and are `None` where a numerator, a denominator or a step of the
//! computation does not fit 64 bits.

use crate::formula::citv::in_i64;
use crate::ordered::{Comparison, Dup, OrdKey};
use crate::text::push_int;
use num_rational::Ratio;
use vstd::prelude::*;

verus! {

/// A rational number.
#[derive(Clone, Copy, Debug, PartialEq, Eq, Structural, Hash)]
pub struct Q {
    pub numer: i64,
    pub denom: i64,
}

pub open spec fn abs(i: int) -> nat {
    if i < 0 {
        (-i) as nat
    } else {
        i as nat
    }
}

/// The greatest common divisor, with `gcd(a, 0) == a`.
pub open spec fn gcd(a: nat, b: nat) -> nat
    decreases b,
{
    if b == 0 {
        a
    } else {
        gcd(b, a % b)
    }
}

/// The quotient of an integer by a positive divisor, exact where the divisor
/// divides.
pub open spec fn exact_div(a: int, g: nat) -> int {
    if a < 0 {
        -((-a) / (g as int))
    } else {
        a / (g as int)
    }
}

/// The fraction `n / d` in lowest terms with a positive denominator. `None`
/// where `d` is zero or the result does not fit 64 bits.
pub open spec fn q_reduce(n: int, d: int) -> Option<Q> {
    if d == 0 || !in_i64(n) || !in_i64(d) {
        None
    } else if n == 0 {
        Some(Q { numer: 0, denom: 1 })
    } else if n == d {
        Some(Q { numer: 1, denom: 1 })
    } else {
        let g = gcd(abs(n), abs(d));
        let rn = exact_div(n, g);
        let rd = exact_div(d, g);
        if d > 0 {
            Some(Q { numer: rn as i64, denom: rd as i64 })
        } else if rn > i64::MIN && rd > i64::MIN {
            Some(Q { numer: (-rn) as i64, denom: (-rd) as i64 })
        } else {
            None
        }
    }
}

pub open spec fn q_add(a: Q, b: Q) -> Option<Q> {
    q_sum(a, b, b.numer as int)
}

pub open spec fn q_sub(a: Q, b: Q) -> Option<Q> {
    q_sum(a, b, -b.numer)
}

/// `a + m / b.denom` over the least common denominator, `m` being the second
/// numerator or its negation.
pub open spec fn q_sum(a: Q, b: Q, m: int) -> Option<Q> {
    if !a.wf() || !b.wf() {
        None
    } else if a.denom == b.denom {
        if in_i64(a.numer + m) {
            q_reduce(a.numer + m, a.denom as int)
        } else {
            None
        }
    } else {
        let g = gcd(a.denom as nat, b.denom as nat) as int;
        let ka = b.denom as int / g;
        let kb = a.denom as int / g;
        let lcm = a.denom * ka;
        if in_i64(lcm) && in_i64(a.numer * ka) && in_i64(b.numer * kb) && in_i64(
            a.numer * ka + m * kb,
        ) {
            q_reduce(a.numer * ka + m * kb, lcm)
        } else {
            None
        }
    }
}

pub open spec fn q_mul(a: Q, b: Q) -> Option<Q> {
    if !a.wf() || !b.wf() {
        None
    } else {
        let g1 = gcd(abs(a.numer as int), b.denom as nat);
        let g2 = gcd(a.denom as nat, abs(b.numer as int));
        let n = exact_div(a.numer as int, g1) * exact_div(b.numer as int, g2);
        let d = exact_div(a.denom as int, g2) * exact_div(b.denom as int, g1);
        if in_i64(n) && in_i64(d) {
            q_reduce(n, d)
        } else {
            None
        }
    }
}

/// `None` also where `b` is zero, and where the numerators' common divisor
/// does not fit.
pub open spec fn q_div(a: Q, b: Q) -> Option<Q> {
    if !a.wf() || !b.wf() || b.numer == 0 || (b.numer == i64::MIN && (a.numer == 0 || a.numer
        == i64::MIN)) {
        None
    } else {
        let g1 = gcd(abs(a.numer as int), abs(b.numer as int));
        let g2 = gcd(a.denom as nat, b.denom as nat);
        let n = exact_div(a.numer as int, g1) * exact_div(b.denom as int, g2);
        let d = exact_div(a.denom as int, g2) * exact_div(b.numer as int, g1);
        if in_i64(n) && in_i64(d) {
            q_reduce(n, d)
        } else {
            None
        }
    }
}

pub open spec fn q_neg(a: Q) -> Option<Q> {
    if a.numer == i64::MIN {
        None
    } else {
        Some(Q { numer: (-a.numer) as i64, denom: a.denom })
    }
}

pub open spec fn q_int(n: i64) -> Q {
    Q { numer: n, denom: 1 }
}

/// The order of the rational numbers. Fractions whose denominator is not
/// positive are not rational numbers here; they come last.
pub open spec fn q_lt(a: Q, b: Q) -> bool {
    if a.denom > 0 && b.denom > 0 {
        a.numer * b.denom < b.numer * a.denom || (a.numer * b.denom == b.numer * a.denom && a.denom
            < b.denom)
    } else if a.denom > 0 {
        true
    } else if b.denom > 0 {
        false
    } else {
        a.denom < b.denom || (a.denom == b.denom && a.numer < b.numer)
    }
}

impl Q {
    /// In lowest terms, with a positive denominator.
    pub open spec fn wf(self) -> bool {
        self.denom > 0 && gcd(abs(self.numer as int), self.denom as nat) == 1
    }

    /// The number this fraction stands for.
    pub open spec fn value(self) -> real {
        (self.numer as real) / (self.denom as real)
    }

    /// The fraction `numer / denom` in lowest terms.
    pub fn new(numer: i64, denom: i64) -> (r: Q)
        requires
            q_reduce(numer as int, denom as int) is Some,
        ensures
            Some(r) == q_reduce(numer as int, denom as int),
            r.wf(),
            r.value() == (numer as real) / (denom as real),
    {
        proof {
            lemma_reduce(numer as int, denom as int);
        }
        ratio_new(numer, denom)
    }

    pub fn from_integer(n: i64) -> (r: Q)
        ensures
            r == q_int(n),
            r.wf(),
    {
        proof {
            lemma_int_wf(n);
        }
        Q { numer: n, denom: 1 }
    }

    pub fn zero() -> (r: Q)
        ensures
            r == q_int(0),
            r.wf(),
    {
        proof {
            lemma_int_wf(0);
        }
        Q { numer: 0, denom: 1 }
    }

    pub fn one() -> (r: Q)
        ensures
            r == q_int(1),
            r.wf(),
    {
        proof {
            lemma_int_wf(1);
        }
        Q { numer: 1, denom: 1 }
    }

    pub fn numer(&self) -> (r: i64)
        ensures
            r == self.numer,
    {
        self.numer
    }

    pub fn denom(&self) -> (r: i64)
        ensures
            r == self.denom,
    {
        self.denom
    }

    pub fn is_zero(&self) -> (b: bool)
        ensures
            b == (self.numer == 0),
    {
        self.numer == 0
    }

    pub fn is_one(&self) -> (b: bool)
        ensures
            b == (self.numer == self.denom),
    {
        self.numer == self.denom
    }

    /// Whether the denominator is one.
    pub fn is_integer(&self) -> (b: bool)
        ensures
            b == (self.denom == 1),
    {
        self.denom == 1
    }

    pub fn plus(&self, other: &Q) -> (r: Q)
        requires
            q_add(*self, *other) is Some,
        ensures
            Some(r) == q_add(*self, *other),
            r.wf(),
            r.value() == self.value() + other.value(),
    {
        proof {
            lemma_q_add(*self, *other);
        }
        ratio_add(*self, *other)
    }

    pub fn minus(&self, other: &Q) -> (r: Q)
        requires
            q_sub(*self, *other) is Some,
        ensures
            Some(r) == q_sub(*self, *other),
            r.wf(),
            r.value() == self.value() - other.value(),
    {
        proof {
            lemma_q_sub(*self, *other);
        }
        ratio_sub(*self, *other)
    }

    pub fn times(&self, other: &Q) -> (r: Q)
        requires
            q_mul(*self, *other) is Some,
        ensures
            Some(r) == q_mul(*self, *other),
            r.wf(),
            r.value() == self.value() * other.value(),
    {
        proof {
            lemma_q_mul(*self, *other);
        }
        ratio_mul(*self, *other)
    }

    pub fn over(&self, other: &Q) -> (r: Q)
        requires
            q_div(*self, *other) is Some,
        ensures
            Some(r) == q_div(*self, *other),
            r.wf(),
            r.value() == self.value() / other.value(),
    {
        proof {
            lemma_q_div(*self, *other);
        }
        ratio_div(*self, *other)
    }

    pub fn negated(&self) -> (r: Q)
        requires
            q_neg(*self) is Some,
        ensures
            Some(r) == q_neg(*self),
            self.wf() ==> r.wf() && r.value() == -self.value(),
    {
        proof {
            if self.wf() {
                lemma_q_neg(*self);
            }
        }
        Q { numer: -self.numer, denom: self.denom }
    }

    /// The numerator alone for an integer, `numer/denom` otherwise.
    pub open spec fn text(self) -> Seq<char> {
        if self.denom == 1 {
            crate::text::int_text(self.numer as int)
        } else {
            crate::text::int_text(self.numer as int) + "/"@ + crate::text::int_text(
                self.denom as int,
            )
        }
    }

    pub fn push_text(&self, out: &mut String)
        ensures
            final(out)@ == old(out)@ + self.text(),
    {
        let ghost before = out@;
        push_int(out, self.numer);
        if self.denom != 1 {
            out.append("/");
            push_int(out, self.denom);
        }
        assert(out@ =~= before + self.text());
    }
}

/// `Ratio::new`: the reduced fraction with a positive denominator. It panics
/// on a zero denominator and where the sign of the least integer would have to
/// change.
#[verifier::external_body]
fn ratio_new(numer: i64, denom: i64) -> (r: Q)
    requires
        q_reduce(numer as int, denom as int) is Some,
    ensures
        Some(r) == q_reduce(numer as int, denom as int),
{
    let r = Ratio::new(numer, denom);
    Q { numer: *r.numer(), denom: *r.denom() }
}

/// `Ratio`'s `+` on fractions in lowest terms: both are brought to the least
/// common denominator, added and reduced. It panics where a step overflows.
#[verifier::external_body]
fn ratio_add(a: Q, b: Q) -> (r: Q)
    requires
        q_add(a, b) is Some,
    ensures
        Some(r) == q_add(a, b),
{
    let r = Ratio::new_raw(a.numer, a.denom) + Ratio::new_raw(b.numer, b.denom);
    Q { numer: *r.numer(), denom: *r.denom() }
}

/// `Ratio`'s `-` on fractions in lowest terms: both are brought to the least
/// common denominator, subtracted and reduced. It panics where a step
/// overflows.
#[verifier::external_body]
fn ratio_sub(a: Q, b: Q) -> (r: Q)
    requires
        q_sub(a, b) is Some,
    ensures
        Some(r) == q_sub(a, b),
{
    let r = Ratio::new_raw(a.numer, a.denom) - Ratio::new_raw(b.numer, b.denom);
    Q { numer: *r.numer(), denom: *r.denom() }
}

/// `Ratio`'s `*` on fractions in lowest terms: common factors are cancelled
/// crosswise, then numerators and denominators are multiplied and reduced. It
/// panics where a product overflows.
#[verifier::external_body]
fn ratio_mul(a: Q, b: Q) -> (r: Q)
    requires
        q_mul(a, b) is Some,
    ensures
        Some(r) == q_mul(a, b),
{
    let r = Ratio::new_raw(a.numer, a.denom) * Ratio::new_raw(b.numer, b.denom);
    Q { numer: *r.numer(), denom: *r.denom() }
}

/// `Ratio`'s `/` on fractions in lowest terms: common factors of the two
/// numerators and of the two denominators are cancelled, then the first is
/// multiplied by the reciprocal of the second and reduced. It panics on a zero
/// divisor and where a step overflows.
#[verifier::external_body]
fn ratio_div(a: Q, b: Q) -> (r: Q)
    requires
        q_div(a, b) is Some,
    ensures
        Some(r) == q_div(a, b),
{
    let r = Ratio::new_raw(a.numer, a.denom) / Ratio::new_raw(b.numer, b.denom);
    Q { numer: *r.numer(), denom: *r.denom() }
}

pub proof fn lemma_int_wf(n: i64)
    ensures
        q_int(n).wf(),
{
    reveal_with_fuel(gcd, 3);
    let a = abs(n as int);
    assert(a % 1 == 0);
}

/// A fraction over one is its numerator.
proof fn lemma_reduce_int(n: int)
    requires
        in_i64(n),
    ensures
        q_reduce(n, 1) == Some(q_int(n as i64)),
{
    reveal_with_fuel(gcd, 3);
    assert(abs(n) % 1 == 0);
    assert(gcd(abs(n), 1) == 1);
    assert(exact_div(n, 1) == n);
    assert(exact_div(1, 1) == 1);
}

/// On integers the arithmetic is that of the integers, as long as the result fits.
pub proof fn law_integers(a: i64, b: i64)
    ensures
        in_i64(a + b) ==> q_add(q_int(a), q_int(b)) == Some(q_int((a + b) as i64)),
        in_i64(a - b) ==> q_sub(q_int(a), q_int(b)) == Some(q_int((a - b) as i64)),
        in_i64(a * b) ==> q_mul(q_int(a), q_int(b)) == Some(q_int((a * b) as i64)),
        q_div(q_int(a), q_int(1)) == Some(q_int(a)),
        a > i64::MIN ==> q_div(q_int(a), q_int((-1) as i64)) == Some(q_int((-a) as i64)),
{
    lemma_int_wf(a);
    lemma_int_wf(b);
    lemma_int_wf(1);
    lemma_int_wf((-1) as i64);
    if in_i64(a + b) {
        lemma_reduce_int(a + b);
    }
    if in_i64(a - b) {
        lemma_reduce_int(a - b);
    }
    reveal_with_fuel(gcd, 3);
    assert(abs(a as int) % 1 == 0);
    assert(abs(b as int) % 1 == 0);
    assert(gcd(abs(a as int), 1) == 1);
    assert(gcd(1, 1) == 1);
    assert(gcd(1, abs(b as int)) == 1) by {
        let n = abs(b as int);
        if n > 1 {
            assert(1nat % n == 1) by (nonlinear_arith)
                requires
                    n > 1,
            ;
        }
    }
    assert(exact_div(a as int, 1) == a);
    assert(exact_div(b as int, 1) == b);
    assert(exact_div(1, 1) == 1);
    if in_i64(a * b) {
        lemma_reduce_int(a * b);
    }
    lemma_reduce_int(a as int);
    assert((a as int) * 1 == a);
    assert(abs(-1) == 1);
    assert(exact_div(-1, 1) == -1);
    if a > i64::MIN {
        assert(q_reduce(a as int, -1) == Some(q_int((-a) as i64)));
    }
}

impl View for Q {
    type V = Q;

    open spec fn view(&self) -> Q {
        *self
    }
}

impl Dup for Q {
    fn dup(&self) -> (r: Self) {
        *self
    }
}

proof fn lemma_cross_transitive(an: int, ad: int, bn: int, bd: int, cn: int, cd: int)
    requires
        ad > 0,
        bd > 0,
        cd > 0,
        an * bd <= bn * ad,
        bn * cd <= cn * bd,
    ensures
        an * cd <= cn * ad,
        an * bd < bn * ad || bn * cd < cn * bd ==> an * cd < cn * ad,
{
    assert(an * bd * cd <= bn * ad * cd) by (nonlinear_arith)
        requires
            an * bd <= bn * ad,
            cd > 0,
    ;
    assert(bn * cd * ad <= cn * bd * ad) by (nonlinear_arith)
        requires
            bn * cd <= cn * bd,
            ad > 0,
    ;
    assert(an * bd < bn * ad ==> an * bd * cd < bn * ad * cd) by (nonlinear_arith)
        requires
            cd > 0,
    ;
    assert(bn * cd < cn * bd ==> bn * cd * ad < cn * bd * ad) by (nonlinear_arith)
        requires
            ad > 0,
    ;
    assert(an * bd * cd == (an * cd) * bd) by (nonlinear_arith);
    assert(bn * ad * cd == bn * cd * ad) by (nonlinear_arith);
    assert(cn * bd * ad == (cn * ad) * bd) by (nonlinear_arith);
    let x = an * cd;
    let y = cn * ad;
    assert(x * bd <= y * bd);
    assert(x <= y) by (nonlinear_arith)
        requires
            x * bd <= y * bd,
            bd > 0,
    ;
    assert(x * bd < y * bd ==> x < y) by (nonlinear_arith)
        requires
            bd > 0,
    ;
}

impl OrdKey for Q {
    open spec fn lt(a: Q, b: Q) -> bool {
        q_lt(a, b)
    }

    proof fn lt_irreflexive(a: Q) {
        assert(Self::lt(a, a) == q_lt(a, a));
    }

    proof fn lt_transitive(a: Q, b: Q, c: Q) {
        if a.denom > 0 && b.denom > 0 && c.denom > 0 {
            lemma_cross_transitive(
                a.numer as int,
                a.denom as int,
                b.numer as int,
                b.denom as int,
                c.numer as int,
                c.denom as int,
            );
        }
    }

    proof fn lt_total(a: Q, b: Q) {
        if a.denom > 0 && b.denom > 0 && a.denom == b.denom {
            let d = a.denom as int;
            let x = a.numer as int;
            let y = b.numer as int;
            assert(x * d == y * d ==> x == y) by (nonlinear_arith)
                requires
                    d > 0,
            ;
        }
    }

    fn compare(&self, other: &Self) -> (c: Comparison) {
        if self.denom > 0 && other.denom > 0 {
            proof {
                lemma_product_bound(self.numer, other.denom);
                lemma_product_bound(other.numer, self.denom);
                Self::lt_total(*self, *other);
            }
            let l: i128 = self.numer as i128 * other.denom as i128;
            let r: i128 = other.numer as i128 * self.denom as i128;
            if l < r {
                Comparison::Less
            } else if l > r {
                Comparison::Greater
            } else if self.denom < other.denom {
                Comparison::Less
            } else if self.denom > other.denom {
                Comparison::Greater
            } else {
                Comparison::Equal
            }
        } else if self.denom > 0 {
            Comparison::Less
        } else if other.denom > 0 {
            Comparison::Greater
        } else if self.denom < other.denom {
            Comparison::Less
        } else if self.denom > other.denom {
            Comparison::Greater
        } else if self.numer < other.numer {
            Comparison::Less
        } else if self.numer > other.numer {
            Comparison::Greater
        } else {
            Comparison::Equal
        }
    }
}

proof fn lemma_product_bound(a: i64, b: i64)
    ensures
        i128::MIN <= a * b <= i128::MAX,
{
    assert(-0x4000_0000_0000_0000_0000_0000_0000_0000 <= a * b
        <= 0x4000_0000_0000_0000_0000_0000_0000_0000) by (nonlinear_arith)
        requires
            -0x8000_0000_0000_0000 <= a <= 0x7fff_ffff_ffff_ffff,
            -0x8000_0000_0000_0000 <= b <= 0x7fff_ffff_ffff_ffff,
    ;
}

proof fn lemma_gcd_divides(a: nat, b: nat)
    requires
        a > 0 || b > 0,
    ensures
        gcd(a, b) > 0,
        a % gcd(a, b) == 0,
        b % gcd(a, b) == 0,
    decreases b,
{
    if b == 0 {
        assert(a % a == 0) by (nonlinear_arith)
            requires
                a > 0,
        ;
    } else {
        lemma_gcd_divides(b, a % b);
        let g = gcd(a, b) as int;
        let r = (a % b) as int;
        let x = b as int / g;
        let y = r / g;
        let k = a as int / (b as int);
        vstd::arithmetic::div_mod::lemma_fundamental_div_mod(b as int, g);
        vstd::arithmetic::div_mod::lemma_fundamental_div_mod(r, g);
        vstd::arithmetic::div_mod::lemma_fundamental_div_mod(a as int, b as int);
        assert(a == g * (x * k + y)) by (nonlinear_arith)
            requires
                a == b * k + r,
                b == g * x,
                r == g * y,
        ;
        vstd::arithmetic::div_mod::lemma_mod_multiples_basic(x * k + y, g);
        assert(g * (x * k + y) == (x * k + y) * g) by (nonlinear_arith);
    }
}

proof fn lemma_gcd_greatest(a: nat, b: nat, k: nat)
    requires
        k > 0,
        a % k == 0,
        b % k == 0,
    ensures
        gcd(a, b) % k == 0,
    decreases b,
{
    if b != 0 {
        let r = (a % b) as int;
        let q = a as int / (b as int);
        let x = a as int / (k as int);
        let y = b as int / (k as int);
        vstd::arithmetic::div_mod::lemma_fundamental_div_mod(a as int, k as int);
        vstd::arithmetic::div_mod::lemma_fundamental_div_mod(b as int, k as int);
        vstd::arithmetic::div_mod::lemma_fundamental_div_mod(a as int, b as int);
        assert(r == (x - y * q) * k) by (nonlinear_arith)
            requires
                a == b * q + r,
                a == k * x,
                b == k * y,
        ;
        vstd::arithmetic::div_mod::lemma_mod_multiples_basic(x - y * q, k as int);
        lemma_gcd_greatest(b, a % b, k);
    }
}

/// Dividing two numbers by their greatest common divisor leaves coprime
/// numbers.
proof fn lemma_coprime(a: nat, b: nat)
    requires
        b > 0,
    ensures
        gcd(a, b) > 0,
        a == gcd(a, b) * (a / gcd(a, b)),
        b == gcd(a, b) * (b / gcd(a, b)),
        gcd(a / gcd(a, b), b / gcd(a, b)) == 1,
{
    let g = gcd(a, b);
    lemma_gcd_divides(a, b);
    let x = a / g;
    let y = b / g;
    vstd::arithmetic::div_mod::lemma_fundamental_div_mod(a as int, g as int);
    vstd::arithmetic::div_mod::lemma_fundamental_div_mod(b as int, g as int);
    assert(y > 0) by (nonlinear_arith)
        requires
            b == g * y,
            b > 0,
            y >= 0,
            g > 0,
    ;
    let k = gcd(x, y);
    lemma_gcd_divides(x, y);
    let i = x / k;
    let j = y / k;
    vstd::arithmetic::div_mod::lemma_fundamental_div_mod(x as int, k as int);
    vstd::arithmetic::div_mod::lemma_fundamental_div_mod(y as int, k as int);
    let m = (k * g) as nat;
    assert(m > 0) by (nonlinear_arith)
        requires
            k > 0,
            g > 0,
            m == k * g,
    ;
    assert(a == i * m) by (nonlinear_arith)
        requires
            a == g * x,
            x == k * i,
            m == k * g,
    ;
    assert(b == j * m) by (nonlinear_arith)
        requires
            b == g * y,
            y == k * j,
            m == k * g,
    ;
    vstd::arithmetic::div_mod::lemma_mod_multiples_basic(i as int, m as int);
    vstd::arithmetic::div_mod::lemma_mod_multiples_basic(j as int, m as int);
    lemma_gcd_greatest(a, b, m);
    vstd::arithmetic::div_mod::lemma_fundamental_div_mod(g as int, m as int);
    let h = g / m;
    assert(k == 1) by (nonlinear_arith)
        requires
            g == m * h,
            m == k * g,
            g > 0,
            k > 0,
            h >= 0,
    ;
}

proof fn lemma_cancel(g: real, n: real, d: real)
    requires
        g != 0real,
        d != 0real,
    ensures
        (g * n) / (g * d) == n / d,
{
    assert((g * n) / (g * d) == n / d) by (nonlinear_arith)
        requires
            g != 0real,
            d != 0real,
    ;
}

proof fn lemma_product_real(a: int, b: int)
    ensures
        (a * b) as real == (a as real) * (b as real),
{
    assert((a * b) as real == (a as real) * (b as real)) by (nonlinear_arith);
}

/// Reducing a fraction gives a rational in lowest terms with the same value.
pub proof fn lemma_reduce(n: int, d: int)
    requires
        q_reduce(n, d) is Some,
    ensures
        (q_reduce(n, d)->0).wf(),
        (q_reduce(n, d)->0).value() == (n as real) / (d as real),
{
    let r = q_reduce(n, d)->0;
    if n == 0 {
        lemma_int_wf(0);
        assert((0int as real) / (d as real) == 0real) by (nonlinear_arith)
            requires
                d != 0,
        ;
        assert((0i64 as real) / (1i64 as real) == 0real) by (nonlinear_arith);
    } else if n == d {
        lemma_int_wf(1);
        assert((n as real) / (n as real) == 1real) by (nonlinear_arith)
            requires
                n != 0,
        ;
        assert((1i64 as real) / (1i64 as real) == 1real) by (nonlinear_arith);
    } else {
        let g = gcd(abs(n), abs(d));
        lemma_coprime(abs(n), abs(d));
        let rn = exact_div(n, g);
        let rd = exact_div(d, g);
        assert(n == g * rn) by (nonlinear_arith)
            requires
                abs(n) == g * (abs(n) / g),
                rn == exact_div(n, g),
        ;
        assert(d == g * rd) by (nonlinear_arith)
            requires
                abs(d) == g * (abs(d) / g),
                rd == exact_div(d, g),
        ;
        assert(rd != 0) by (nonlinear_arith)
            requires
                d == g * rd,
                d != 0,
        ;
        assert(abs(rn) == abs(n) / g && abs(rd) == abs(d) / g);
        assert(abs(rn) <= abs(n) && abs(rd) <= abs(d)) by (nonlinear_arith)
            requires
                abs(n) == g * abs(rn),
                abs(d) == g * abs(rd),
                g > 0,
        ;
        assert(d > 0 ==> rd > 0) by (nonlinear_arith)
            requires
                d == g * rd,
                g > 0,
        ;
        assert(d < 0 ==> rd < 0) by (nonlinear_arith)
            requires
                d == g * rd,
                g > 0,
        ;
        let gi = g as int;
        lemma_product_real(gi, rn);
        lemma_product_real(gi, rd);
        lemma_cancel(gi as real, rn as real, rd as real);
        if d < 0 {
            lemma_cancel(-1real, rn as real, rd as real);
            assert((-rn) as real == (-1real) * (rn as real));
            assert((-rd) as real == (-1real) * (rd as real));
        }
    }
}

/// A sum, where it is computed, is the sum of the values.
pub proof fn lemma_q_sum(a: Q, b: Q, m: int)
    requires
        q_sum(a, b, m) is Some,
    ensures
        (q_sum(a, b, m)->0).wf(),
        (q_sum(a, b, m)->0).value() == a.value() + (m as real) / (b.denom as real),
{
    if a.denom == b.denom {
        lemma_reduce(a.numer + m, a.denom as int);
        let (x, y, d) = (a.numer as real, m as real, a.denom as real);
        assert((x + y) / d == x / d + y / d) by (nonlinear_arith)
            requires
                d > 0real,
        ;
        assert((a.numer + m) as real == x + y);
    } else {
        let gn = gcd(a.denom as nat, b.denom as nat);
        let g = gn as int;
        lemma_coprime(a.denom as nat, b.denom as nat);
        let ka = b.denom as int / g;
        let kb = a.denom as int / g;
        let lcm = a.denom * ka;
        let ad = a.denom as int;
        let bd = b.denom as int;
        assert(ad == g * kb && bd == g * ka);
        assert(ad * ka == bd * kb) by (nonlinear_arith)
            requires
                ad == g * kb,
                bd == g * ka,
        ;
        assert(ka > 0 && kb > 0) by (nonlinear_arith)
            requires
                ad == g * kb,
                bd == g * ka,
                ad > 0,
                bd > 0,
                g > 0,
        ;
        let an = a.numer as int;
        lemma_reduce(an * ka + m * kb, lcm);
        lemma_product_real(an, ka);
        lemma_product_real(m, kb);
        lemma_product_real(ad, ka);
        lemma_product_real(bd, kb);
        let (p, q, u, v) = (an as real, ka as real, m as real, kb as real);
        let (x, y) = (ad as real, bd as real);
        assert(lcm as real == x * q && lcm as real == y * v);
        assert((an * ka + m * kb) as real == p * q + u * v);
        lemma_cancel(q, p, x);
        lemma_cancel(v, u, y);
        assert(q * p == p * q && q * x == x * q && v * u == u * v && v * y == y * v)
            by (nonlinear_arith);
        let l = lcm as real;
        assert(l > 0real) by (nonlinear_arith)
            requires
                l == x * q,
                x > 0real,
                q > 0real,
        ;
        assert((p * q + u * v) / l == (p * q) / l + (u * v) / l) by (nonlinear_arith)
            requires
                l > 0real,
        ;
    }
}

pub proof fn lemma_q_add(a: Q, b: Q)
    requires
        q_add(a, b) is Some,
    ensures
        a.wf(),
        b.wf(),
        (q_add(a, b)->0).wf(),
        (q_add(a, b)->0).value() == a.value() + b.value(),
{
    lemma_q_sum(a, b, b.numer as int);
}

pub proof fn lemma_q_sub(a: Q, b: Q)
    requires
        q_sub(a, b) is Some,
    ensures
        a.wf(),
        b.wf(),
        (q_sub(a, b)->0).wf(),
        (q_sub(a, b)->0).value() == a.value() - b.value(),
{
    lemma_q_sum(a, b, -b.numer);
    let (n, d) = (b.numer as real, b.denom as real);
    assert((-b.numer) as real == -n);
    assert((-n) / d == -(n / d)) by (nonlinear_arith)
        requires
            d > 0real,
    ;
}

pub proof fn lemma_q_neg(a: Q)
    requires
        q_neg(a) is Some,
        a.wf(),
    ensures
        (q_neg(a)->0).wf(),
        (q_neg(a)->0).value() == -a.value(),
{
    let (n, d) = (a.numer as real, a.denom as real);
    assert(((-a.numer) as int) as real == -n);
    assert((-n) / d == -(n / d)) by (nonlinear_arith)
        requires
            d > 0real,
    ;
}

/// `a == g * exact_div(a, g)` where `g` divides.
proof fn lemma_exact_div(a: int, g: nat)
    requires
        g > 0,
        abs(a) == g * (abs(a) / g),
    ensures
        a == g * exact_div(a, g),
{
    assert(a == g * exact_div(a, g)) by (nonlinear_arith)
        requires
            abs(a) == g * (abs(a) / g),
    ;
}

pub proof fn lemma_q_mul(a: Q, b: Q)
    requires
        q_mul(a, b) is Some,
    ensures
        a.wf(),
        b.wf(),
        (q_mul(a, b)->0).wf(),
        (q_mul(a, b)->0).value() == a.value() * b.value(),
{
    let (an, ad, bn, bd) = (a.numer as int, a.denom as int, b.numer as int, b.denom as int);
    let g1 = gcd(abs(an), bd as nat);
    let g2 = gcd(ad as nat, abs(bn));
    lemma_coprime(abs(an), bd as nat);
    lemma_gcd_divides(ad as nat, abs(bn));
    vstd::arithmetic::div_mod::lemma_fundamental_div_mod(ad, g2 as int);
    vstd::arithmetic::div_mod::lemma_fundamental_div_mod(abs(bn) as int, g2 as int);
    lemma_exact_div(an, g1);
    lemma_exact_div(bd, g1);
    lemma_exact_div(ad, g2);
    lemma_exact_div(bn, g2);
    lemma_crosswise(
        an,
        ad,
        bn,
        bd,
        g1 as int,
        g2 as int,
        exact_div(an, g1),
        exact_div(ad, g2),
        exact_div(bn, g2),
        exact_div(bd, g1),
    );
    lemma_reduce(
        exact_div(an, g1) * exact_div(bn, g2),
        exact_div(ad, g2) * exact_div(bd, g1),
    );
}

/// Cancelling crosswise does not change a product of fractions.
proof fn lemma_crosswise(
    an: int,
    ad: int,
    bn: int,
    bd: int,
    g1: int,
    g2: int,
    n1: int,
    d1: int,
    n2: int,
    d2: int,
)
    requires
        ad != 0,
        bd != 0,
        g1 != 0,
        g2 != 0,
        an == g1 * n1,
        bd == g1 * d2,
        ad == g2 * d1,
        bn == g2 * n2,
    ensures
        ((n1 * n2) as real) / ((d1 * d2) as real) == ((an as real) / (ad as real)) * ((bn as real)
            / (bd as real)),
{
    let (h1, h2) = (g1 as real, g2 as real);
    let (p, q, r, s) = (n1 as real, d1 as real, n2 as real, d2 as real);
    lemma_product_real(g1, n1);
    lemma_product_real(g1, d2);
    lemma_product_real(g2, d1);
    lemma_product_real(g2, n2);
    lemma_product_real(n1, n2);
    lemma_product_real(d1, d2);
    assert(d1 != 0) by (nonlinear_arith)
        requires
            ad == g2 * d1,
            ad != 0,
    ;
    assert(d2 != 0) by (nonlinear_arith)
        requires
            bd == g1 * d2,
            bd != 0,
    ;
    let c = h1 * h2;
    assert(c != 0real) by (nonlinear_arith)
        requires
            c == h1 * h2,
            h1 != 0real,
            h2 != 0real,
    ;
    assert(q * s != 0real) by (nonlinear_arith)
        requires
            q != 0real,
            s != 0real,
    ;
    lemma_cancel(c, p * r, q * s);
    assert(c * (p * r) == (h1 * p) * (h2 * r)) by (nonlinear_arith)
        requires
            c == h1 * h2,
    ;
    assert(c * (q * s) == (h2 * q) * (h1 * s)) by (nonlinear_arith)
        requires
            c == h1 * h2,
    ;
    let (w, x, y, z) = (an as real, ad as real, bn as real, bd as real);
    assert((w * y) / (x * z) == (w / x) * (y / z)) by (nonlinear_arith)
        requires
            x != 0real,
            z != 0real,
    ;
}

pub proof fn lemma_q_div(a: Q, b: Q)
    requires
        q_div(a, b) is Some,
    ensures
        a.wf(),
        b.wf(),
        b.value() != 0real,
        (q_div(a, b)->0).wf(),
        (q_div(a, b)->0).value() == a.value() / b.value(),
{
    let (an, ad, bn, bd) = (a.numer as int, a.denom as int, b.numer as int, b.denom as int);
    let g1 = gcd(abs(an), abs(bn));
    let g2 = gcd(ad as nat, bd as nat);
    lemma_coprime(abs(an), abs(bn));
    lemma_coprime(ad as nat, bd as nat);
    lemma_exact_div(an, g1);
    lemma_exact_div(bn, g1);
    lemma_exact_div(ad, g2);
    lemma_exact_div(bd, g2);
    lemma_crosswise(
        an,
        ad,
        bd,
        bn,
        g1 as int,
        g2 as int,
        exact_div(an, g1),
        exact_div(ad, g2),
        exact_div(bd, g2),
        exact_div(bn, g1),
    );
    lemma_reduce(
        exact_div(an, g1) * exact_div(bd, g2),
        exact_div(ad, g2) * exact_div(bn, g1),
    );
    let (w, x, y, z) = (an as real, ad as real, bn as real, bd as real);
    assert(y / z != 0real && (w / x) * (z / y) == (w / x) / (y / z)) by (nonlinear_arith)
        requires
            x != 0real,
            y != 0real,
            z != 0real,
    ;
}

/// A rational is zero exactly when its value is, and one exactly when its
/// value is.
pub proof fn lemma_q_tests(a: Q)
    requires
        a.wf(),
    ensures
        a.numer == 0 <==> a.value() == 0real,
        a.numer == a.denom <==> a.value() == 1real,
{
    let (n, d) = (a.numer as real, a.denom as real);
    assert(n / d == 0real <==> n == 0real) by (nonlinear_arith)
        requires
            d > 0real,
    ;
    assert(n / d == 1real <==> n == d) by (nonlinear_arith)
        requires
            d > 0real,
    ;
}

/// A rational in lowest terms is an integer exactly when its denominator is
/// one.
pub proof fn lemma_q_integer(a: Q, k: int)
    requires
        a.wf(),
        a.value() == k as real,
    ensures
        a.denom == 1,
{
    let (n, d) = (a.numer as int, a.denom as int);
    let (x, y, z) = (n as real, d as real, k as real);
    assert(x == z * y) by (nonlinear_arith)
        requires
            x / y == z,
            y > 0real,
    ;
    lemma_product_real(k, d);
    assert(n == k * d);
    let h = if k < 0 {
        -k
    } else {
        k
    };
    assert(abs(n) == h * d) by (nonlinear_arith)
        requires
            n == k * d,
            d > 0,
            h == if k < 0 {
                -k
            } else {
                k
            },
            abs(n) == if n < 0 {
                -n
            } else {
                n
            },
    ;
    vstd::arithmetic::div_mod::lemma_mod_multiples_basic(h, d);
    assert(abs(n) % (d as nat) == 0);
    lemma_mod_self(d);
    lemma_gcd_greatest(abs(n), d as nat, d as nat);
    assert(1nat % (d as nat) == 0);
    assert(d == 1) by (nonlinear_arith)
        requires
            1int % d == 0,
            d > 0,
    ;
}

proof fn lemma_mod_self(d: int)
    requires
        d > 0,
    ensures
        d % d == 0,
{
    assert(d % d == 0) by (nonlinear_arith)
        requires
            d > 0,
    ;
}

proof fn lemma_gcd_commutes(a: nat, b: nat)
    ensures
        gcd(a, b) == gcd(b, a),
{
    reveal_with_fuel(gcd, 2);
    if a < b {
        assert(a % b == a) by (nonlinear_arith)
            requires
                a < b,
        ;
    }
    if b < a {
        assert(b % a == b) by (nonlinear_arith)
            requires
                b < a,
        ;
    }
}

/// The only fraction in lowest terms that is zero.
pub proof fn lemma_zero(a: Q)
    requires
        a.wf(),
        a.numer == 0,
    ensures
        a == q_int(0),
{
    reveal_with_fuel(gcd, 3);
    let d = a.denom as nat;
    assert(0nat % d == 0) by (nonlinear_arith)
        requires
            d > 0,
    ;
    assert(gcd(0, d) == d);
}

/// Addition of fractions commutes.
pub proof fn law_add_commutes(a: Q, b: Q)
    ensures
        q_add(a, b) == q_add(b, a),
{
    if a.wf() && b.wf() && a.denom != b.denom {
        let (x, y) = (a.denom as int, b.denom as int);
        lemma_gcd_commutes(a.denom as nat, b.denom as nat);
        lemma_gcd_divides(a.denom as nat, b.denom as nat);
        let g = gcd(a.denom as nat, b.denom as nat) as int;
        let (p, q) = (x / g, y / g);
        assert(x == g * p) by (nonlinear_arith)
            requires
                g > 0,
                x % g == 0,
                p == x / g,
        ;
        assert(y == g * q) by (nonlinear_arith)
            requires
                g > 0,
                y % g == 0,
                q == y / g,
        ;
        assert(x * q == y * p) by (nonlinear_arith)
            requires
                x == g * p,
                y == g * q,
        ;
    }
}

/// Adding zero changes nothing.
pub proof fn law_add_zero(a: Q)
    requires
        a.wf(),
    ensures
        q_add(a, q_int(0)) == Some(a),
        q_add(q_int(0), a) == Some(a),
{
    lemma_int_wf(0);
    law_add_commutes(a, q_int(0));
    reveal_with_fuel(gcd, 3);
    let d = a.denom as nat;
    if d == 1 {
        lemma_reduce_int(a.numer as int);
        assert(a == q_int(a.numer));
    } else {
        assert(d % 1 == 0);
        assert(gcd(d, 1) == 1);
        assert(1int / 1 == 1);
        assert(d as int / 1 == d);
        assert(a.denom * 1 == a.denom);
        assert(0 * d == 0);
        if a.numer == a.denom {
            assert(d % d == 0) by (nonlinear_arith)
                requires
                    d > 0,
            ;
        }
        if a.numer == 0 {
            assert(0nat % d == 0) by (nonlinear_arith)
                requires
                    d > 0,
            ;
        }
        let n = abs(a.numer as int) as int;
        assert(n / 1 == n);
    }
}

proof fn lemma_gcd_one(n: nat)
    ensures
        gcd(1, n) == 1,
        gcd(n, 1) == 1,
{
    reveal_with_fuel(gcd, 3);
    lemma_gcd_commutes(1, n);
    assert(n % 1 == 0);
}

/// A fraction in lowest terms is what it reduces to.
proof fn lemma_reduce_same(a: Q)
    requires
        a.wf(),
    ensures
        q_reduce(a.numer as int, a.denom as int) == Some(a),
{
    reveal_with_fuel(gcd, 3);
    let d = a.denom as nat;
    if a.numer == 0 {
        lemma_zero(a);
    } else if a.numer == a.denom {
        assert(d % d == 0) by (nonlinear_arith)
            requires
                d > 0,
        ;
    } else {
        let n = abs(a.numer as int) as int;
        assert(n / 1 == n);
        assert(d as int / 1 == d);
    }
}

/// The only fraction in lowest terms that is one.
pub proof fn lemma_one(a: Q)
    requires
        a.wf(),
        a.numer == a.denom,
    ensures
        a == q_int(1),
{
    reveal_with_fuel(gcd, 3);
    let d = a.denom as nat;
    assert(d % d == 0) by (nonlinear_arith)
        requires
            d > 0,
    ;
    assert(gcd(d, d) == d);
}

/// One and zero as factors.
pub proof fn law_mul_units(a: Q)
    requires
        a.wf(),
    ensures
        q_mul(q_int(1), a) == Some(a),
        q_mul(q_int(0), a) == Some(q_int(0)),
{
    lemma_int_wf(0);
    lemma_int_wf(1);
    let d = a.denom as nat;
    let n = abs(a.numer as int);
    lemma_gcd_one(d);
    lemma_gcd_one(n);
    lemma_reduce_same(a);
    assert(exact_div(1, 1) == 1);
    assert(exact_div(a.numer as int, 1) == a.numer);
    assert(exact_div(d as int, 1) == d);
    reveal_with_fuel(gcd, 3);
    assert(0nat % d == 0) by (nonlinear_arith)
        requires
            d > 0,
    ;
    assert(gcd(0, d) == d);
    assert(exact_div(0, d) == 0);
    assert(exact_div(d as int, d) == 1) by (nonlinear_arith)
        requires
            d > 0,
            exact_div(d as int, d) == d as int / d as int,
    ;
}

} // verus!
