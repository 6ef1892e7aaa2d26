//! The constants that operations on known integers give, in integer arithmetic.

use super::citv::in_i64;
use super::formula_model::{compare_result, fold_bits, fold_ints, trunc_div, trunc_rem};
use crate::binop::Binop;
use crate::rational::abs;
use vstd::arithmetic::div_mod::{lemma_fundamental_div_mod, lemma_fundamental_div_mod_converse};
use vstd::arithmetic::power2::{lemma2_to64, lemma_pow2_pos, lemma_pow2_unfold, pow2};
use vstd::prelude::*;

verus! {

/// The quotient of two integers, rounded toward zero.
pub open spec fn quotient(x: int, y: int) -> int {
    if x >= 0 {
        x / y
    } else {
        -((-x) / y)
    }
}

/// The 64-bit integer congruent to `n`.
pub open spec fn wrapped(n: int) -> int {
    let r = n % 0x1_0000_0000_0000_0000;
    if r < 0x8000_0000_0000_0000 {
        r
    } else {
        r - 0x1_0000_0000_0000_0000
    }
}

/// The quotient and the remainder are those of division with a remainder smaller
/// than the divisor and on the same side of zero as the dividend.
pub proof fn law_quotient(x: int, y: int)
    requires
        y != 0,
    ensures
        abs(x - y * quotient(x, y)) < abs(y),
        x >= 0 ==> x - y * quotient(x, y) >= 0,
        x <= 0 ==> x - y * quotient(x, y) <= 0,
{
    let n = if x >= 0 {
        x
    } else {
        -x
    };
    lemma_fundamental_div_mod(n, y);
    let q = n / y;
    assert(y * (-q) == -(y * q)) by (nonlinear_arith);
    assert(0int / y == 0) by (nonlinear_arith)
        requires
            y != 0,
    ;
    assert(0 <= n % y < abs(y) as int);
}

proof fn lemma_trunc(x: int, y: int)
    requires
        y != 0,
    ensures
        trunc_div(x, y) == quotient(x, y),
        trunc_rem(x, y) == x - y * quotient(x, y),
{
    let n = abs(x) as int;
    let d = abs(y) as int;
    let q = n / d;
    lemma_fundamental_div_mod(n, d);
    if y < 0 {
        assert(n == y * (-q) + n % d) by (nonlinear_arith)
            requires
                n == d * q + n % d,
                d == -y,
        ;
        assert(n / y == -q) by (nonlinear_arith)
            requires
                n == y * (-q) + n % d,
                0 <= n % d < -y,
        ;
    }
}

proof fn lemma_shift_left(x: i64, y: i64)
    requires
        0 <= y < 64,
    ensures
        (x << y) == wrapped(x * pow2(y as nat)),
    decreases y,
{
    lemma2_to64();
    if y == 0 {
        assert((x << 0u64) == x) by (bit_vector);
        assert((x << y) == (x << 0u64));
        assert(x * 1 == x) by (nonlinear_arith);
    } else {
        let z: i64 = (y - 1) as i64;
        let w: i64 = x << z;
        lemma_shift_left(x, z);
        let (yu, zu) = (y as u64, z as u64);
        assert((x << yu) == ((x << zu) << 1u64)) by (bit_vector)
            requires
                0 < yu < 64,
                zu == yu - 1,
        ;
        assert((x << y) == (x << yu));
        assert((x << z) == (x << zu));
        assert((w << 1u64) == (if w >= 0x4000_0000_0000_0000i64 {
            2 * w - 0x1_0000_0000_0000_0000
        } else if w < -0x4000_0000_0000_0000i64 {
            2 * w + 0x1_0000_0000_0000_0000
        } else {
            2 * w
        })) by (bit_vector);
        lemma_pow2_unfold(y as nat);
        let p = pow2(z as nat) as int;
        let n = x * p;
        assert(x * pow2(y as nat) == 2 * n) by (nonlinear_arith)
            requires
                n == x * p,
                pow2(y as nat) == 2 * p,
        ;
        assert(wrapped(2 * n) == wrapped(2 * wrapped(n)));
    }
}

proof fn lemma_shift_right(x: i64, y: i64)
    requires
        0 <= y < 64,
    ensures
        (x >> y) == (x as int) / (pow2(y as nat) as int),
    decreases y,
{
    lemma2_to64();
    if y == 0 {
        assert((x >> 0u64) == x) by (bit_vector);
        assert((x >> y) == (x >> 0u64));
        assert(x as int / 1 == x);
    } else {
        let z: i64 = (y - 1) as i64;
        let w: i64 = x >> z;
        lemma_shift_right(x, z);
        let (yu, zu) = (y as u64, z as u64);
        assert((x >> yu) == ((x >> zu) >> 1u64)) by (bit_vector)
            requires
                0 < yu < 64,
                zu == yu - 1,
        ;
        assert((x >> y) == (x >> yu));
        assert((x >> z) == (x >> zu));
        let h: i64 = w >> 1u64;
        assert(2 * h <= w && w <= 2 * h + 1) by (bit_vector)
            requires
                h == w >> 1u64,
        ;
        lemma_pow2_unfold(y as nat);
        lemma_pow2_pos(z as nat);
        let p = pow2(z as nat) as int;
        assert(h == (w as int) / 2);
        lemma_fundamental_div_mod(x as int, p);
        let (b, r) = (w - 2 * h, x as int % p);
        assert(x == (2 * p) * h + (p * b + r) && 0 <= p * b + r < 2 * p) by (nonlinear_arith)
            requires
                x == p * w + r,
                w == 2 * h + b,
                0 <= b <= 1,
                0 <= r < p,
        ;
        assert(h * (2 * p) == (2 * p) * h) by (nonlinear_arith);
        lemma_fundamental_div_mod_converse(x as int, 2 * p, h as int, p * b + r);
        assert((x >> y) == h);
        assert(pow2(y as nat) == 2 * p);
    }
}

/// The integer that an operation on 64-bit integers gives, where it gives one: a
/// product, a quotient rounded toward zero and the remainder it leaves, a product
/// with a power of two reduced to 64 bits, or a quotient by one rounded down.
pub open spec fn integer_result(op: Binop, x: int, y: int) -> Option<int> {
    match op {
        Binop::Mult(_) => Some(x * y),
        Binop::DivI => if y == 0 {
            None
        } else {
            Some(quotient(x, y))
        },
        Binop::Mod => if y == 0 {
            None
        } else {
            Some(x - y * quotient(x, y))
        },
        Binop::Shiftlt => if 0 <= y < 64 {
            Some(wrapped(x * pow2(y as nat)))
        } else {
            None
        },
        Binop::Shiftrt => if 0 <= y < 64 {
            Some(x / (pow2(y as nat) as int))
        } else {
            None
        },
        Binop::BAnd => Some(((x as i64) & (y as i64)) as int),
        Binop::BOr => Some(((x as i64) | (y as i64)) as int),
        Binop::BXor => Some(((x as i64) ^ (y as i64)) as int),
        Binop::Eq => Some(if x == y {
            1
        } else {
            0
        }),
        Binop::Ne => Some(if x == y {
            0
        } else {
            1
        }),
        Binop::Lt => Some(if x < y {
            1
        } else {
            0
        }),
        Binop::Gt => Some(if x > y {
            1
        } else {
            0
        }),
        Binop::Le => Some(if x <= y {
            1
        } else {
            0
        }),
        Binop::Ge => Some(if x >= y {
            1
        } else {
            0
        }),
        _ => None,
    }
}

/// Folding two constants gives the integer that the operation gives.
pub proof fn law_folded(op: Binop, x: i64, y: i64)
    ensures
        op is Mult || op is DivI || op is Mod || op is Shiftlt || op is Shiftrt ==> match fold_ints(
            op,
            x,
            y,
        ) {
            Some(Some(c)) => integer_result(op, x as int, y as int) == Some(c as int),
            Some(None) => integer_result(op, x as int, y as int) is None,
            None => op is Mult && !in_i64(x * y) || (op is DivI || op is Mod) && x == i64::MIN && y
                == -1,
        },
        op is BAnd || op is BOr || op is BXor ==> integer_result(op, x as int, y as int) == Some(
            fold_bits(op, x, y) as int,
        ),
        op is Eq || op is Ne || op is Lt || op is Gt || op is Le || op is Ge ==> integer_result(
            op,
            x as int,
            y as int,
        ) == Some(compare_result(op, x as int, y as int) as int),
{
    if (op is DivI || op is Mod) && y != 0 {
        lemma_trunc(x as int, y as int);
        law_quotient(x as int, y as int);
        if !(x == i64::MIN && y == -1) {
            lemma_quotient_fits(x as int, y as int);
        }
    }
    if op is Shiftlt && 0 <= y < 64 {
        lemma_shift_left(x, y);
    }
    if op is Shiftrt && 0 <= y < 64 {
        lemma_shift_right(x, y);
    }
}

proof fn lemma_quotient_fits(x: int, y: int)
    requires
        in_i64(x),
        in_i64(y),
        y != 0,
        !(x == i64::MIN && y == -1),
    ensures
        in_i64(quotient(x, y)),
        in_i64(x - y * quotient(x, y)),
{
    let n = abs(x) as int;
    let d = abs(y) as int;
    let q = n / d;
    lemma_trunc(x, y);
    law_quotient(x, y);
    assert(0 <= q <= n) by (nonlinear_arith)
        requires
            q == n / d,
            d >= 1,
            n >= 0,
    ;
    assert(d >= 2 && n > 0 ==> q < n) by (nonlinear_arith)
        requires
            q == n / d,
            d >= 1,
            n >= 0,
    ;
}

} // verus!
