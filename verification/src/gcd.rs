//! The extended Euclidean algorithm: a spec-level model of its recursion, the
//! facts proved about it (Bézout's identity, the gcd it computes, bounds on
//! the coefficients), and the executable `euclids_gcd` that realises it.

use vstd::prelude::*;
use vstd::math::{abs, max};
use vstd::arithmetic::div_mod::{lemma_fundamental_div_mod, lemma_mod_division_less_than_divisor};
use crate::trunc::{t_div, t_rem, lemma_t_div_rem, trunc_div_rem};

verus! {

/// The greatest common divisor of two natural numbers, by Euclid's recursion.
/// `gcd_nat(0, 0) == 0`; otherwise the result is positive, divides both
/// arguments, and every common divisor divides it (`lemma_gcd_nat_divides`,
/// `lemma_gcd_nat_greatest`).
pub open spec fn gcd_nat(a: nat, b: nat) -> nat
    decreases a,
    via gcd_nat_decreases
{
    if a == 0 {
        b
    } else {
        gcd_nat(b % a, a)
    }
}

#[via_fn]
proof fn gcd_nat_decreases(a: nat, b: nat) {
    if a != 0 {
        lemma_mod_division_less_than_divisor(b as int, a as int);
    }
}

/// The triple `(g, x, y)` produced by the extended Euclidean recursion on
/// `(a, b)`: `g` is a greatest common divisor of `a` and `b` (carrying the
/// sign the recursion gives it) and `x * a + y * b == g`.
/// `lemma_egcd` proves those properties of it.
pub open spec fn egcd_spec(a: int, b: int) -> (int, int, int)
    decreases abs(a),
    via egcd_spec_decreases
{
    if a == 0 {
        (b, 0, 1)
    } else {
        let sub = egcd_spec(t_rem(b, a), a);
        (sub.0, sub.2 - t_div(b, a) * sub.1, sub.1)
    }
}

#[via_fn]
proof fn egcd_spec_decreases(a: int, b: int) {
    if a != 0 {
        lemma_t_div_rem(b, a);
    }
}

/// `d` divides `x`.
pub open spec fn divides(d: int, x: int) -> bool {
    exists|k: int| x == #[trigger] (d * k)
}

/// The extended Euclidean recursion is correct: its triple `(g, x, y)`
/// satisfies Bézout's identity `x * a + y * b == g`; the magnitude of `g` is
/// the gcd of the magnitudes of `a` and `b`; `g` is one of the values the
/// remainder chain visits (so it fits wherever `a` and `b` do); and the
/// coefficients are bounded by the inputs.
pub proof fn lemma_egcd(a: int, b: int)
    ensures
        egcd_spec(a, b).1 * a + egcd_spec(a, b).2 * b == egcd_spec(a, b).0,
        abs(egcd_spec(a, b).0) == gcd_nat(abs(a), abs(b)),
        a == 0 ==> egcd_spec(a, b) == (b, 0int, 1int),
        egcd_spec(a, b).0 == b || egcd_spec(a, b).0 == a || abs(egcd_spec(a, b).0) < abs(a),
        abs(egcd_spec(a, b).1) <= max(1, abs(b) as int - 1),
        abs(egcd_spec(a, b).2) <= max(1, abs(a) as int - 1),
    decreases abs(a),
{
    if a == 0 {
        assert(gcd_nat(abs(a), abs(b)) == abs(b));
        assert(egcd_spec(a, b).0 == b);
        assert(egcd_spec(a, b).1 == 0);
        assert(egcd_spec(a, b).2 == 1);
    } else {
        let r = t_rem(b, a);
        let q = t_div(b, a);
        lemma_t_div_rem(b, a);
        lemma_egcd(r, a);
        let sub = egcd_spec(r, a);
        let g = sub.0;
        let x1 = sub.1;
        let y1 = sub.2;
        let x = y1 - q * x1;
        assert(egcd_spec(a, b) == (g, x, x1));

        // Bézout's identity, from the identity of the recursive call and the
        // division identity b == a * q + r.
        assert(x * a + x1 * b == g) by (nonlinear_arith)
            requires
                x1 * r + y1 * a == g,
                b == a * q + r,
                x == y1 - q * x1,
        ;

        // The magnitude of g is the gcd: one unfolding of gcd_nat.
        let pa = abs(a);
        let pb = abs(b);
        assert(gcd_nat(pa, pb) == gcd_nat(pb % pa, pa));
        assert(abs(r) == pb % pa);

        // Magnitudes of the division identity: pb == Q * pa + R.
        let q_mag = abs(q) as int;
        let r_mag = abs(r) as int;
        lemma_fundamental_div_mod(pb as int, pa as int);
        assert(pb as int == q_mag * pa as int + r_mag) by (nonlinear_arith)
            requires
                pb as int == pa as int * (pb as int / pa as int) + pb as int % pa as int,
                q_mag == pb as int / pa as int,
                r_mag == pb as int % pa as int,
        ;

        // Coefficient bounds.
        let a_mag = pa as int;
        let b_mag = pb as int;
        let x1_mag = abs(x1) as int;
        let y1_mag = abs(y1) as int;
        if r == 0 {
            // the recursive call bottomed out at once: x1 == 0, y1 == 1
            assert(q * x1 == 0) by (nonlinear_arith)
                requires x1 == 0;
            assert(x == 1);
            assert(abs(x) <= max(1, b_mag - 1));
        } else if q == 0 {
            // b == r, and x == y1
            assert(q * x1 == 0) by (nonlinear_arith)
                requires q == 0;
            assert(x == y1);
            assert(abs(x) <= max(1, b_mag - 1));
        } else {
            // |x| <= |y1| + |q| * |x1|
            assert(-(y1_mag + q_mag * x1_mag) <= x <= y1_mag + q_mag * x1_mag) by (nonlinear_arith)
                requires
                    x == y1 - q * x1,
                    -y1_mag <= y1 <= y1_mag,
                    -x1_mag <= x1 <= x1_mag,
                    -q_mag <= q <= q_mag,
                    0 <= q_mag,
                    0 <= x1_mag,
            ;
            // r != 0 and |r| < |a| force |a| >= 2, so |x1| <= |a| - 1
            assert(x1_mag <= a_mag - 1);
            assert(q_mag * x1_mag <= q_mag * (a_mag - 1) && q_mag * (a_mag - 1) == q_mag * a_mag - q_mag)
                by (nonlinear_arith)
                requires
                    0 <= q_mag,
                    0 <= x1_mag <= a_mag - 1,
            ;
            if r_mag >= 2 {
                // |y1| <= |r| - 1, so |x| <= (R - 1) + (Q * A - Q) <= B - 2
                assert(y1_mag <= r_mag - 1);
                assert(abs(x) <= max(1, b_mag - 1));
            } else {
                // |r| == 1, so |y1| <= 1 and |x| <= 1 + Q * A - Q <= B - 1
                assert(y1_mag <= 1);
                assert(abs(x) <= max(1, b_mag - 1));
            }
        }
    }
}

/// `gcd_nat(a, b)` is a common divisor of `a` and `b`.
pub proof fn lemma_gcd_nat_divides(a: nat, b: nat)
    ensures
        divides(gcd_nat(a, b) as int, a as int),
        divides(gcd_nat(a, b) as int, b as int),
    decreases a,
{
    let g = gcd_nat(a, b) as int;
    if a == 0 {
        assert(a as int == g * 0) by (nonlinear_arith)
            requires a == 0;
        assert(b as int == g * 1) by (nonlinear_arith)
            requires g == b as int;
    } else {
        lemma_mod_division_less_than_divisor(b as int, a as int);
        lemma_gcd_nat_divides(b % a, a);
        let k1 = choose|k: int| (b % a) as int == #[trigger] (g * k);
        let k2 = choose|k: int| a as int == #[trigger] (g * k);
        lemma_fundamental_div_mod(b as int, a as int);
        assert(b as int == g * (k2 * (b as int / a as int) + k1)) by (nonlinear_arith)
            requires
                b as int == a as int * (b as int / a as int) + (b % a) as int,
                (b % a) as int == g * k1,
                a as int == g * k2,
        ;
    }
}

/// Every common divisor of `a` and `b` divides `gcd_nat(a, b)`: together with
/// `lemma_gcd_nat_divides`, `gcd_nat` is the greatest common divisor.
pub proof fn lemma_gcd_nat_greatest(a: nat, b: nat, d: int)
    requires
        divides(d, a as int),
        divides(d, b as int),
    ensures
        divides(d, gcd_nat(a, b) as int),
{
    lemma_egcd(a as int, b as int);
    let g = egcd_spec(a as int, b as int).0;
    let x = egcd_spec(a as int, b as int).1;
    let y = egcd_spec(a as int, b as int).2;
    let k1 = choose|k: int| a as int == #[trigger] (d * k);
    let k2 = choose|k: int| b as int == #[trigger] (d * k);
    assert(abs(a as int) == a && abs(b as int) == b);
    assert(g == d * (x * k1 + y * k2)) by (nonlinear_arith)
        requires
            x * (a as int) + y * (b as int) == g,
            a as int == d * k1,
            b as int == d * k2,
    ;
    if g >= 0 {
        assert(gcd_nat(a, b) as int == d * (x * k1 + y * k2));
    } else {
        assert(gcd_nat(a, b) as int == d * (-(x * k1 + y * k2))) by (nonlinear_arith)
            requires
                g == d * (x * k1 + y * k2),
                gcd_nat(a, b) as int == -g,
        ;
    }
}

/// Every isize value, on either architecture width, lies within this bound,
/// and so does every intermediate value of the algorithm run on isize inputs.
const MAG: i128 = 0x8000_0000_0000_0000;

/// The extended Euclidean recursion, executably, on `i128` wide enough that
/// no intermediate product can overflow for inputs within `±MAG`. The depth
/// of the recursion is logarithmic in `|a|` — Euclid's remainders at least
/// halve every two steps — so the stack stays small for machine-word inputs.
fn egcd_rec(a: i128, b: i128) -> (res: (i128, i128, i128))
    requires
        -MAG <= a <= MAG,
        -MAG <= b <= MAG,
    ensures
        res.0 as int == egcd_spec(a as int, b as int).0,
        res.1 as int == egcd_spec(a as int, b as int).1,
        res.2 as int == egcd_spec(a as int, b as int).2,
    decreases abs(a as int),
{
    if a == 0 {
        (b, 0, 1)
    } else {
        proof {
            lemma_t_div_rem(b as int, a as int);
        }
        let qr = trunc_div_rem(b, a);
        let q: i128 = qr.0;
        let r: i128 = qr.1;
        let sub = egcd_rec(r, a);
        proof {
            lemma_egcd(r as int, a as int);
            // |q| <= |b| <= MAG and |sub.1| <= max(1, |a| - 1) <= MAG,
            // so the product fits comfortably in i128
            assert(-(MAG as int * MAG as int) <= q as int * sub.1 as int
                <= MAG as int * MAG as int) by (nonlinear_arith)
                requires
                    -(MAG as int) <= q as int <= MAG as int,
                    -(MAG as int) <= sub.1 as int <= MAG as int,
            ;
        }
        let p: i128 = q * sub.1;
        let x: i128 = sub.2 - p;
        (sub.0, x, sub.1)
    }
}

/// The extended Euclidean algorithm. Returns `(g, x, y)` where `g` is a
/// greatest common divisor of `a` and `b` — of magnitude `gcd_nat(|a|, |b|)`,
/// with the sign the recursion's base case `(b, 0, 1)` gives it — and `x`, `y`
/// are Bézout coefficients: `x * a + y * b == g`. Total on all inputs.
pub fn euclids_gcd(a: isize, b: isize) -> (res: (isize, isize, isize))
    ensures
        res.0 as int == egcd_spec(a as int, b as int).0,
        res.1 as int == egcd_spec(a as int, b as int).1,
        res.2 as int == egcd_spec(a as int, b as int).2,
        res.1 as int * a as int + res.2 as int * b as int == res.0 as int,
        abs(res.0 as int) == gcd_nat(abs(a as int), abs(b as int)),
        a == 0 ==> res.0 == b && res.1 == 0 && res.2 == 1,
{
    proof {
        assert(isize::MIN as int >= -(MAG as int) && isize::MAX as int <= MAG as int);
        lemma_egcd(a as int, b as int);
    }
    let t = egcd_rec(a as i128, b as i128);
    (t.0 as isize, t.1 as isize, t.2 as isize)
}

} // verus!
