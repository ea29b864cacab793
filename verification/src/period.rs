//! The cycle of the recurrence: with an odd multiplier it closes after 2^32
//! advances, and with a multiplier that leaves 1 when divided by 4 and an odd
//! increment it does not close before.
use crate::lcg::{
    geometric_sum, lcg_steps, lemma_geometric_sum_adds, lemma_steps_add, lemma_steps_closed_form,
};
use vstd::arithmetic::div_mod::{
    lemma_fundamental_div_mod, lemma_mod_multiples_vanish, lemma_small_mod,
};
use vstd::arithmetic::power::{lemma_pow0, lemma_pow1, lemma_pow_adds, pow};
use vstd::arithmetic::power2::{lemma2_to64, lemma_pow2_unfold, pow2};
use vstd::prelude::*;

verus! {

/// For an odd `m`, `m^(2^j) - 1` is a multiple of `2^(j + 1)` and the
/// geometric sum of `2^j` terms is a multiple of `2^j`. The two quotients are
/// returned.
proof fn lemma_two_adic(m: int, j: nat) -> (q: (int, int))
    requires
        m % 2 == 1,
    ensures
        pow(m, pow2(j)) == 1 + pow2(j + 1) * q.0,
        geometric_sum(m, pow2(j)) == pow2(j) * q.1,
    decreases j,
{
    if j == 0 {
        lemma2_to64();
        lemma_pow1(m);
        assert(geometric_sum(m, 1) == geometric_sum(m, 0) * m + 1);
        let t = (m - 1) / 2;
        assert(pow(m, pow2(0)) == 1 + pow2(1) * t);
        (t, 1)
    } else {
        let i = (j - 1) as nat;
        let (t, w) = lemma_two_adic(m, i);
        let h = pow2(i) as int;
        let p = pow(m, pow2(i));
        let g = geometric_sum(m, pow2(i));
        lemma_pow2_unfold(j);
        lemma_pow2_unfold(j + 1);
        assert(pow2(j) == pow2(i) + pow2(i));
        lemma_pow_adds(m, pow2(i), pow2(i));
        lemma_geometric_sum_adds(m, pow2(i), pow2(i));
        let t2 = t + h * t * t;
        let w2 = w * (1 + h * t);
        assert(p * p == 1 + (2 * (2 * h)) * t2) by (nonlinear_arith)
            requires
                p == 1 + (2 * h) * t,
                t2 == t + h * t * t,
        ;
        assert(g * p + g == (2 * h) * w2) by (nonlinear_arith)
            requires
                p == 1 + (2 * h) * t,
                g == h * w,
                w2 == w * (1 + h * t),
        ;
        assert(pow(m, pow2(j)) == 1 + pow2(j + 1) * t2) by {
            assert(pow2(j + 1) == 2 * (2 * h));
            assert(pow(m, pow2(j)) == p * p);
        }
        assert(geometric_sum(m, pow2(j)) == pow2(j) * w2) by {
            assert(pow2(j) == 2 * h);
        }
        (t2, w2)
    }
}

/// With an odd multiplier the recurrence returns to where it started after
/// 2^32 advances, whatever the increment.
pub proof fn lemma_full_cycle(state: u32, mult: u32, inc: u32)
    requires
        mult % 2 == 1,
    ensures
        lcg_steps(state, mult, inc, 0x1_0000_0000) == state,
{
    let m = mult as int;
    let s = state as int;
    let c = inc as int;
    let r = 0x1_0000_0000int;
    lemma2_to64();
    lemma_pow2_unfold(33);
    let (t, w) = lemma_two_adic(m, 32);
    lemma_steps_closed_form(state, mult, inc, 0x1_0000_0000);
    let p = pow(m, 0x1_0000_0000);
    let g = geometric_sum(m, 0x1_0000_0000);
    let ts = 2 * t * s;
    let cw = c * w;
    assert(p * s == s + r * ts) by (nonlinear_arith)
        requires
            p == 1 + (2 * r) * t,
            ts == 2 * t * s,
    ;
    assert(c * g == r * cw) by (nonlinear_arith)
        requires
            g == r * w,
            cw == c * w,
    ;
    assert(r * ts + r * cw == r * (ts + cw)) by (nonlinear_arith);
    assert(p * s + c * g == r * (ts + cw) + s);
    lemma_mod_multiples_vanish(ts + cw, s, r);
    lemma_small_mod(s as nat, r as nat);
}

/// With an odd multiplier only the number of advances modulo 2^32 matters.
pub proof fn lemma_steps_wrap(state: u32, mult: u32, inc: u32, n: nat)
    requires
        mult % 2 == 1,
    ensures
        lcg_steps(state, mult, inc, n) == lcg_steps(state, mult, inc, n % 0x1_0000_0000),
    decreases n,
{
    if n >= 0x1_0000_0000 {
        let rest = (n - 0x1_0000_0000) as nat;
        lemma_full_cycle(state, mult, inc);
        lemma_steps_add(state, mult, inc, 0x1_0000_0000, rest);
        lemma_steps_wrap(state, mult, inc, rest);
        assert(0x1_0000_0000 + rest == n);
    }
}

/// A power less 1 is the base less 1, times the geometric sum.
proof fn lemma_pow_less_one(m: int, n: nat)
    ensures
        pow(m, n) - 1 == (m - 1) * geometric_sum(m, n),
    decreases n,
{
    if n == 0 {
        lemma_pow0(m);
        assert((m - 1) * geometric_sum(m, 0) == 0) by (nonlinear_arith)
            requires
                geometric_sum(m, 0) == 0,
        ;
    } else {
        let k = (n - 1) as nat;
        lemma_pow_less_one(m, k);
        lemma_pow_adds(m, k, 1);
        lemma_pow1(m);
        let p = pow(m, k);
        let g = geometric_sum(m, k);
        assert(p * m - 1 == (m - 1) * (g * m + 1)) by (nonlinear_arith)
            requires
                p - 1 == (m - 1) * g,
        ;
    }
}

/// The product with an odd number is as even or odd as the other factor.
proof fn lemma_odd_product_parity(a: int, u: int)
    requires
        u % 2 == 1,
    ensures
        (a * u) % 2 == a % 2,
{
    let h = u / 2;
    let b = a / 2;
    let r = a % 2;
    assert(a * u == 2 * (a * h + b) + r) by (nonlinear_arith)
        requires
            u == 2 * h + 1,
            a == 2 * b + r,
    ;
}

/// A sum of powers of an odd number is as even or odd as the number of its
/// terms.
proof fn lemma_sum_parity(m: int, n: nat)
    requires
        m % 2 == 1,
    ensures
        geometric_sum(m, n) % 2 == n % 2,
    decreases n,
{
    if n > 0 {
        lemma_sum_parity(m, (n - 1) as nat);
        lemma_odd_product_parity(geometric_sum(m, (n - 1) as nat), m);
    }
}

/// The powers of a number that leaves 1 when divided by 4 leave 1 too.
proof fn lemma_pow_mod_four(m: int, n: nat)
    requires
        m % 4 == 1,
    ensures
        pow(m, n) % 4 == 1,
    decreases n,
{
    if n == 0 {
        lemma_pow0(m);
    } else {
        let k = (n - 1) as nat;
        lemma_pow_mod_four(m, k);
        lemma_pow_adds(m, k, 1);
        lemma_pow1(m);
        let p = pow(m, k);
        let a = p / 4;
        let b = m / 4;
        assert(p * m == 4 * (4 * a * b + a + b) + 1) by (nonlinear_arith)
            requires
                p == 4 * a + 1,
                m == 4 * b + 1,
        ;
    }
}

/// A power of two that divides a product with an odd number divides the other
/// factor. The quotient is returned.
proof fn lemma_odd_factor(k: nat, a: int, u: int, q: int) -> (q2: int)
    requires
        u % 2 == 1,
        a * u == pow2(k) * q,
    ensures
        a == pow2(k) * q2,
    decreases k,
{
    if k == 0 {
        lemma2_to64();
        assert(a == pow2(k) * a) by (nonlinear_arith)
            requires
                pow2(k) == 1,
        ;
        a
    } else {
        let half = pow2((k - 1) as nat) as int;
        lemma_pow2_unfold(k);
        lemma_odd_product_parity(a, u);
        assert(pow2(k) * q == 2 * (half * q)) by (nonlinear_arith)
            requires
                pow2(k) == 2 * half,
        ;
        let b = a / 2;
        assert(a == 2 * b);
        assert(b * u == half * q) by (nonlinear_arith)
            requires
                (2 * b) * u == 2 * (half * q),
        ;
        let q2 = lemma_odd_factor((k - 1) as nat, b, u, q);
        assert(b == half * q2);
        assert(2 * (half * q2) == pow2(k) * q2) by (nonlinear_arith)
            requires
                pow2(k) == 2 * half,
        ;
        q2
    }
}

/// For a multiplier that leaves 1 when divided by 4, a power of two that
/// divides the geometric sum of `n` terms divides `n`. The quotient is
/// returned.
proof fn lemma_sum_divisible(m: int, k: nat, n: nat, q: int) -> (q2: int)
    requires
        m % 4 == 1,
        geometric_sum(m, n) == pow2(k) * q,
    ensures
        n == pow2(k) * q2,
    decreases k,
{
    if k == 0 {
        lemma2_to64();
        assert(n == pow2(k) * n) by (nonlinear_arith)
            requires
                pow2(k) == 1,
        ;
        n as int
    } else {
        let half = pow2((k - 1) as nat) as int;
        lemma_pow2_unfold(k);
        assert(pow2(k) * q == 2 * (half * q)) by (nonlinear_arith)
            requires
                pow2(k) == 2 * half,
        ;
        lemma_sum_parity(m, n);
        let h = n / 2;
        assert(n == h + h);
        lemma_geometric_sum_adds(m, h, h);
        lemma_pow_mod_four(m, h);
        let g = geometric_sum(m, h);
        let p = pow(m, h);
        let w = (p + 1) / 2;
        assert(w % 2 == 1);
        assert(g * p + g == 2 * (g * w)) by (nonlinear_arith)
            requires
                p + 1 == 2 * w,
        ;
        let q1 = lemma_odd_factor((k - 1) as nat, g, w, q);
        let q2 = lemma_sum_divisible(m, (k - 1) as nat, h, q1);
        assert(h == half * q2);
        assert(2 * (half * q2) == pow2(k) * q2) by (nonlinear_arith)
            requires
                pow2(k) == 2 * half,
        ;
        q2
    }
}

/// With a multiplier that leaves 1 when divided by 4 and an odd increment,
/// the recurrence does not return to where it started before it has made
/// 2^32 advances.
pub proof fn lemma_no_early_return(state: u32, mult: u32, inc: u32, n: nat)
    requires
        mult % 4 == 1,
        inc % 2 == 1,
        0 < n < 0x1_0000_0000,
    ensures
        lcg_steps(state, mult, inc, n) != state,
{
    let m = mult as int;
    let s = state as int;
    let c = inc as int;
    let r = 0x1_0000_0000int;
    if lcg_steps(state, mult, inc, n) == state {
        let p = pow(m, n);
        let g = geometric_sum(m, n);
        lemma_steps_closed_form(state, mult, inc, n);
        let q = (p * s + c * g) / r;
        lemma_fundamental_div_mod(p * s + c * g, r);
        lemma_pow_less_one(m, n);
        let u = (m - 1) * s + c;
        assert(u % 2 == 1) by {
            let e = (m - 1) / 4;
            assert((m - 1) * s == 2 * (2 * e * s)) by (nonlinear_arith)
                requires
                    m - 1 == 4 * e,
            ;
        }
        assert(g * u == r * q) by (nonlinear_arith)
            requires
                p * s + c * g == r * q + s,
                p - 1 == (m - 1) * g,
                u == (m - 1) * s + c,
        ;
        lemma2_to64();
        let q1 = lemma_odd_factor(32, g, u, q);
        let q2 = lemma_sum_divisible(m, 32, n, q1);
        assert(false) by (nonlinear_arith)
            requires
                n == r * q2,
                0 < n < r,
                r == 0x1_0000_0000,
        ;
    }
}

/// With a multiplier that leaves 1 when divided by 4 and an odd increment,
/// the recurrence goes through every one of the 2^32 states before it comes
/// back: the states after `i` and after `j` advances differ while `i` and `j`
/// differ by less than 2^32.
pub proof fn lemma_states_distinct(state: u32, mult: u32, inc: u32, i: nat, j: nat)
    requires
        mult % 4 == 1,
        inc % 2 == 1,
        i < j < i + 0x1_0000_0000,
    ensures
        lcg_steps(state, mult, inc, i) != lcg_steps(state, mult, inc, j),
{
    lemma_steps_add(state, mult, inc, i, (j - i) as nat);
    lemma_no_early_return(lcg_steps(state, mult, inc, i), mult, inc, (j - i) as nat);
}

} // verus!
