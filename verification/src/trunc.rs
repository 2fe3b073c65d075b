//! Truncating (round-toward-zero) division and remainder, the semantics of
//! Rust's `/` and `%` on signed integers, modelled as spec functions over `int`.

use vstd::prelude::*;
use vstd::arithmetic::div_mod::{
    lemma_fundamental_div_mod, lemma_mod_division_less_than_divisor, lemma_div_pos_is_pos,
    lemma_div_is_ordered_by_denominator,
};
use vstd::math::abs;

verus! {

/// The truncating quotient of `b` by `a`: magnitude `|b| / |a|`, negative
/// exactly when `b` and `a` have opposite signs. Meaningful only for `a != 0`.
pub open spec fn t_div(b: int, a: int) -> int {
    if (b < 0) == (a < 0) {
        abs(b) as int / abs(a) as int
    } else {
        -(abs(b) as int / abs(a) as int)
    }
}

/// The truncating remainder of `b` by `a`: magnitude `|b| % |a|`, with the
/// sign of the dividend `b`. Meaningful only for `a != 0`.
pub open spec fn t_rem(b: int, a: int) -> int {
    if b < 0 {
        -(abs(b) as int % abs(a) as int)
    } else {
        abs(b) as int % abs(a) as int
    }
}

/// The defining facts of truncating division: `t_div` and `t_rem` satisfy the
/// division identity, the remainder is smaller in magnitude than the divisor
/// and carries the sign of the dividend, and the quotient is no larger in
/// magnitude than the dividend.
pub proof fn lemma_t_div_rem(b: int, a: int)
    requires
        a != 0,
    ensures
        b == a * t_div(b, a) + t_rem(b, a),
        abs(t_rem(b, a)) == abs(b) as int % abs(a) as int,
        abs(t_rem(b, a)) < abs(a),
        abs(t_div(b, a)) == abs(b) as int / abs(a) as int,
        abs(t_div(b, a)) <= abs(b),
        b >= 0 ==> t_rem(b, a) >= 0,
        b < 0 ==> t_rem(b, a) <= 0,
{
    let p = abs(b) as int;
    let d = abs(a) as int;
    let q = p / d;
    let r = p % d;
    lemma_fundamental_div_mod(p, d);
    lemma_mod_division_less_than_divisor(p, d);
    lemma_div_pos_is_pos(p, d);
    lemma_div_is_ordered_by_denominator(p, 1, d);
    assert(p / 1 == p) by (nonlinear_arith);
    assert(p == d * q + r);
    if b >= 0 {
        if a > 0 {
            assert(b == a * t_div(b, a) + t_rem(b, a)) by (nonlinear_arith)
                requires b == p && a == d && p == d * q + r && t_div(b, a) == q && t_rem(b, a) == r;
        } else {
            assert(b == a * t_div(b, a) + t_rem(b, a)) by (nonlinear_arith)
                requires b == p && a == -d && p == d * q + r && t_div(b, a) == -q && t_rem(b, a) == r;
        }
    } else {
        if a > 0 {
            assert(b == a * t_div(b, a) + t_rem(b, a)) by (nonlinear_arith)
                requires b == -p && a == d && p == d * q + r && t_div(b, a) == -q && t_rem(b, a) == -r;
        } else {
            assert(b == a * t_div(b, a) + t_rem(b, a)) by (nonlinear_arith)
                requires b == -p && a == -d && p == d * q + r && t_div(b, a) == q && t_rem(b, a) == -r;
        }
    }
}

/// Computes the truncating quotient and remainder of `b` by `a` at once,
/// exactly as Rust's `/` and `%` would, but defined on the whole range asked
/// for by the precondition (no `i128::MIN / -1` overflow can arise).
pub fn trunc_div_rem(b: i128, a: i128) -> (qr: (i128, i128))
    requires
        a != 0,
        a > i128::MIN,
        b > i128::MIN,
    ensures
        qr.0 as int == t_div(b as int, a as int),
        qr.1 as int == t_rem(b as int, a as int),
{
    proof {
        lemma_t_div_rem(b as int, a as int);
    }
    let bn: i128 = if b < 0 { -b } else { b };
    let an: i128 = if a < 0 { -a } else { a };
    let q0: i128 = bn / an;
    let r0: i128 = bn % an;
    proof {
        lemma_div_pos_is_pos(bn as int, an as int);
        lemma_div_is_ordered_by_denominator(bn as int, 1, an as int);
        assert(bn as int / 1 == bn as int) by (nonlinear_arith);
        lemma_mod_division_less_than_divisor(bn as int, an as int);
    }
    let q: i128 = if (b < 0) != (a < 0) { -q0 } else { q0 };
    let r: i128 = if b < 0 { -r0 } else { r0 };
    (q, r)
}

} // verus!
