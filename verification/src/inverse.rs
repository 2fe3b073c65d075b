//! The modular multiplicative inverse, computed from the Bézout coefficient
//! that `euclids_gcd` returns and normalised into `[0, m)`.

use vstd::prelude::*;
use vstd::math::abs;
use vstd::arithmetic::div_mod::{
    lemma_fundamental_div_mod, lemma_fundamental_div_mod_converse_mod,
    lemma_mod_division_less_than_divisor, lemma_mod_multiples_vanish,
};
use crate::gcd::{egcd_spec, gcd_nat, lemma_egcd, euclids_gcd};

verus! {

/// What `modular_multiplicative_inverse` returns, at the spec level: for a
/// positive modulus `m` and `a` coprime to `m`, the representative in
/// `[0, m)` of the inverse of `a`; otherwise nothing. A gcd of `-1` counts as
/// coprime — the recursion's sign convention can yield it — and the Bézout
/// coefficient is negated to match.
pub open spec fn mod_inverse_spec(a: int, m: int) -> Option<int> {
    if m <= 0 {
        None
    } else {
        let g = egcd_spec(a, m).0;
        let x = egcd_spec(a, m).1;
        if g == 1 {
            Some(x % m)
        } else if g == -1 {
            Some((-x) % m)
        } else {
            None
        }
    }
}

/// An inverse exists exactly when `m` is positive and `gcd(|a|, m) == 1`, and
/// it then satisfies the defining congruence: the result `r` lies in `[0, m)`
/// and `(a * r) % m == 1 % m` — which for every modulus above 1 reads
/// `(a * r) % m == 1`, while modulo 1 everything collapses to 0.
pub proof fn lemma_mod_inverse_correct(a: int, m: int)
    requires
        m > 0,
    ensures
        mod_inverse_spec(a, m) is Some <==> gcd_nat(abs(a), abs(m)) == 1,
        mod_inverse_spec(a, m) matches Some(r) ==> {
            &&& 0 <= r < m
            &&& (a * r) % m == 1int % m
            &&& m > 1 ==> (a * r) % m == 1
        },
{
    if m > 1 {
        vstd::arithmetic::div_mod::lemma_small_mod(1, m as nat);
    }
    lemma_egcd(a, m);
    let g = egcd_spec(a, m).0;
    let x = egcd_spec(a, m).1;
    let y = egcd_spec(a, m).2;
    assert(abs(m) == m);
    assert(gcd_nat(abs(a), abs(m)) == 1 <==> g == 1 || g == -1);
    if g == 1 || g == -1 {
        // c is the Bézout coefficient turned into an inverse: c * a == 1 + k * m
        let c = if g == 1 { x } else { -x };
        let k = if g == 1 { -y } else { y };
        assert(c * a == m * k + 1) by (nonlinear_arith)
            requires
                x * a + y * m == g,
                g == 1 ==> c == x && k == -y,
                g != 1 ==> c == -x && k == y && g == -1,
        ;
        lemma_mod_multiples_vanish(k, 1, m);
        assert((c * a) % m == 1int % m);
        // reducing c modulo m preserves the congruence
        let r = c % m;
        lemma_mod_division_less_than_divisor(c, m);
        lemma_fundamental_div_mod(c, m);
        let t = -(a * (c / m));
        assert(a * r == m * t + c * a) by (nonlinear_arith)
            requires
                c == m * (c / m) + r,
                t == -(a * (c / m)),
        ;
        lemma_mod_multiples_vanish(t, c * a, m);
        assert((a * r) % m == (c * a) % m);
        assert(mod_inverse_spec(a, m) == Some(r));
    }
}

/// The modular multiplicative inverse of `a` modulo `m`. Returns `Some(r)`
/// with `r` in `[0, m)` and `(a * r) % m == 1 % m` exactly when `m > 0` and
/// `gcd(|a|, m) == 1`; returns `None` when `a` and `m` are not coprime, and
/// also for a zero or negative modulus, which this library rejects.
pub fn modular_multiplicative_inverse(a: isize, m: isize) -> (res: Option<isize>)
    ensures
        res is Some <==> m > 0 && gcd_nat(abs(a as int), abs(m as int)) == 1,
        res matches Some(r) ==> Some(r as int) == mod_inverse_spec(a as int, m as int),
        res is None ==> mod_inverse_spec(a as int, m as int) is None,
        res matches Some(r) ==> {
            &&& 0 <= r < m
            &&& (a as int * r as int) % (m as int) == 1int % (m as int)
        },
{
    if m <= 0 {
        return None;
    }
    proof {
        lemma_egcd(a as int, m as int);
        lemma_mod_inverse_correct(a as int, m as int);
    }
    let t = euclids_gcd(a, m);
    let g: isize = t.0;
    let x: isize = t.1;
    if g != 1 && g != -1 {
        return None;
    }
    // |x| <= max(1, m - 1), so negating it cannot overflow and |c| <= m
    let c: isize = if g == 1 { x } else { -x };
    let r: isize = if c < 0 { c + m } else if c >= m { c - m } else { c };
    proof {
        let ci = c as int;
        let mi = m as int;
        if ci < 0 {
            lemma_fundamental_div_mod_converse_mod(ci, mi, -1, ci + mi);
        } else if ci >= mi {
            lemma_fundamental_div_mod_converse_mod(ci, mi, 1, ci - mi);
        } else {
            lemma_fundamental_div_mod_converse_mod(ci, mi, 0, ci);
        }
        assert(r as int == ci % mi);
    }
    Some(r)
}

} // verus!
