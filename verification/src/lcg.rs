//! The linear congruential recurrence `state' = state * mult + inc` on 32-bit
//! words, and the routine that jumps ahead by any number of its steps.
use vstd::arithmetic::div_mod::{
    lemma_add_mod_noop, lemma_mod_twice, lemma_mul_mod_noop, lemma_small_mod,
};
use vstd::arithmetic::power::{lemma_pow0, lemma_pow1, lemma_pow_adds, pow};
use vstd::prelude::*;

verus! {

/// One advance of the recurrence, modulo 2^32.
pub open spec fn lcg_step(state: u32, mult: u32, inc: u32) -> u32 {
    ((state * mult + inc) % 0x1_0000_0000) as u32
}

/// The state reached from `state` by `n` advances of the recurrence.
pub open spec fn lcg_steps(state: u32, mult: u32, inc: u32, n: nat) -> u32
    decreases n,
{
    if n == 0 {
        state
    } else {
        lcg_step(lcg_steps(state, mult, inc, (n - 1) as nat), mult, inc)
    }
}

/// `1 + m + m^2 + ... + m^(n - 1)`, the factor by which the increment enters
/// the state after `n` advances.
pub open spec fn geometric_sum(m: int, n: nat) -> int
    decreases n,
{
    if n == 0 {
        0
    } else {
        geometric_sum(m, (n - 1) as nat) * m + 1
    }
}

/// The multiplier of the affine map that `n` advances compose to.
pub open spec fn composite_mult(mult: u32, n: nat) -> u32 {
    (pow(mult as int, n) % 0x1_0000_0000) as u32
}

/// The increment of the affine map that `n` advances compose to.
pub open spec fn composite_inc(mult: u32, inc: u32, n: nat) -> u32 {
    ((inc * geometric_sum(mult as int, n)) % 0x1_0000_0000) as u32
}

/// Reducing the operands of `a * x + b` modulo `m` first does not change the
/// result modulo `m`.
proof fn lemma_affine_mod(a: int, x: int, b: int, m: int)
    requires
        m > 0,
    ensures
        ((a % m) * (x % m) + (b % m)) % m == (a * x + b) % m,
{
    lemma_mul_mod_noop(a, x, m);
    lemma_mod_twice(b, m);
    lemma_add_mod_noop((a % m) * (x % m), b % m, m);
    lemma_add_mod_noop(a * x, b, m);
}

/// The sum of `a + b` terms is the sum of `a` terms times `m^b`, plus the sum
/// of `b` terms.
pub proof fn lemma_geometric_sum_adds(m: int, a: nat, b: nat)
    ensures
        geometric_sum(m, a + b) == geometric_sum(m, a) * pow(m, b) + geometric_sum(m, b),
    decreases b,
{
    if b == 0 {
        lemma_pow0(m);
    } else {
        let c = (b - 1) as nat;
        lemma_geometric_sum_adds(m, a, c);
        assert(pow(m, b) == pow(m, c) * m) by {
            lemma_pow_adds(m, c, 1);
            lemma_pow1(m);
        }
        let ga = geometric_sum(m, a);
        let gc = geometric_sum(m, c);
        let pc = pow(m, c);
        assert(geometric_sum(m, a + b) == geometric_sum(m, a + c) * m + 1);
        assert((ga * pc + gc) * m + 1 == ga * (pc * m) + (gc * m + 1)) by (nonlinear_arith);
    }
}

/// `n` advances are one affine map: the state times the composite multiplier,
/// plus the composite increment.
pub proof fn lemma_steps_closed_form(state: u32, mult: u32, inc: u32, n: nat)
    ensures
        lcg_steps(state, mult, inc, n) == (pow(mult as int, n) * state + inc * geometric_sum(
            mult as int,
            n,
        )) % 0x1_0000_0000,
        lcg_steps(state, mult, inc, n) == (composite_mult(mult, n) * state + composite_inc(
            mult,
            inc,
            n,
        )) % 0x1_0000_0000,
    decreases n,
{
    let m = mult as int;
    let s = state as int;
    let c = inc as int;
    let r = 0x1_0000_0000int;
    if n == 0 {
        lemma_pow0(m);
        assert(pow(m, 0) * s + c * geometric_sum(m, 0) == s) by (nonlinear_arith)
            requires
                pow(m, 0) == 1,
                geometric_sum(m, 0) == 0,
        ;
    } else {
        let k = (n - 1) as nat;
        lemma_steps_closed_form(state, mult, inc, k);
        let pk = pow(m, k);
        let gk = geometric_sum(m, k);
        let prev = pk * s + c * gk;
        assert(pow(m, n) == pk * m) by {
            lemma_pow_adds(m, k, 1);
            lemma_pow1(m);
        }
        assert(lcg_steps(state, mult, inc, n) == ((prev % r) * m + c) % r);
        assert(((prev % r) * m + c) % r == (prev * m + c) % r) by {
            lemma_affine_mod(prev, m, c, r);
            lemma_affine_mod(prev % r, m, c, r);
            lemma_small_mod((prev % r) as nat, r as nat);
        }
        assert(prev * m + c == (pk * m) * s + c * (gk * m + 1)) by (nonlinear_arith)
            requires
                prev == pk * s + c * gk,
        ;
    }
    lemma_affine_mod(pow(m, n), s, c * geometric_sum(m, n), r);
    lemma_small_mod(s as nat, r as nat);
}

/// No advance is the identity map, and one advance has the multiplier and the
/// increment themselves.
proof fn lemma_composite_start(mult: u32, inc: u32)
    ensures
        composite_mult(mult, 0) == 1,
        composite_inc(mult, inc, 0) == 0,
        composite_mult(mult, 1) == mult,
        composite_inc(mult, inc, 1) == inc,
{
    let m = mult as int;
    lemma_pow0(m);
    lemma_pow1(m);
    assert(geometric_sum(m, 0) == 0);
    assert(geometric_sum(m, 1) == geometric_sum(m, 0) * m + 1);
    assert(geometric_sum(m, 0) * m == 0) by (nonlinear_arith)
        requires
            geometric_sum(m, 0) == 0,
    ;
    assert(inc * geometric_sum(m, 0) == 0) by (nonlinear_arith)
        requires
            geometric_sum(m, 0) == 0,
    ;
    assert(inc * geometric_sum(m, 1) == inc) by (nonlinear_arith)
        requires
            geometric_sum(m, 1) == 1,
    ;
}

/// Composing the map of `a` advances with the map of `b` advances gives the
/// map of `a + b` advances.
proof fn lemma_composite_adds(mult: u32, inc: u32, a: nat, b: nat)
    ensures
        composite_mult(mult, a + b) == (composite_mult(mult, a) * composite_mult(mult, b))
            % 0x1_0000_0000,
        composite_inc(mult, inc, a + b) == (composite_inc(mult, inc, a) * composite_mult(mult, b)
            + composite_inc(mult, inc, b)) % 0x1_0000_0000,
{
    let m = mult as int;
    let c = inc as int;
    let r = 0x1_0000_0000int;
    let ga = geometric_sum(m, a);
    let gb = geometric_sum(m, b);
    let pb = pow(m, b);
    lemma_pow_adds(m, a, b);
    lemma_mul_mod_noop(pow(m, a), pb, r);
    lemma_geometric_sum_adds(m, a, b);
    assert(c * (ga * pb + gb) == (c * ga) * pb + c * gb) by (nonlinear_arith);
    lemma_affine_mod(c * ga, pb, c * gb, r);
}

/// What a wrapping multiplication followed by a wrapping addition computes.
pub proof fn lemma_wrapping_mul_add(a: u32, x: u32, b: u32)
    ensures
        a.wrapping_mul(x).wrapping_add(b) == (a * x + b) % 0x1_0000_0000,
        a.wrapping_mul(x) == (a * x) % 0x1_0000_0000,
{
    let r = 0x1_0000_0000int;
    let p = (a * x) % r;
    assert(0 <= a * x) by (nonlinear_arith);
    assert(a.wrapping_mul(x) == p);
    assert(a.wrapping_mul(x).wrapping_add(b) == (p + b) % r);
    lemma_affine_mod(a as int, x as int, b as int, r);
    lemma_small_mod(a as nat, r as nat);
    lemma_small_mod(x as nat, r as nat);
    lemma_small_mod(b as nat, r as nat);
    lemma_add_mod_noop(a * x, b as int, r);
    lemma_add_mod_noop(p, b as int, r);
    lemma_mod_twice(a * x, r);
}

/// Taking the map of `unit` advances into the map of `done` advances, as the
/// jump does for a set bit, gives the map of `done + unit` advances.
proof fn lemma_take_unit(mult: u32, inc: u32, done: nat, unit: nat)
    ensures
        composite_mult(mult, done).wrapping_mul(composite_mult(mult, unit)) == composite_mult(
            mult,
            done + unit,
        ),
        composite_inc(mult, inc, done).wrapping_mul(composite_mult(mult, unit)).wrapping_add(
            composite_inc(mult, inc, unit),
        ) == composite_inc(mult, inc, done + unit),
{
    lemma_composite_adds(mult, inc, done, unit);
    lemma_wrapping_mul_add(
        composite_inc(mult, inc, done),
        composite_mult(mult, unit),
        composite_inc(mult, inc, unit),
    );
    lemma_wrapping_mul_add(composite_mult(mult, done), composite_mult(mult, unit), 0);
}

/// Squaring the map of `unit` advances, as the jump does for each bit, gives
/// the map of twice as many.
proof fn lemma_double_unit(mult: u32, inc: u32, unit: nat)
    ensures
        composite_mult(mult, unit).wrapping_mul(composite_mult(mult, unit)) == composite_mult(
            mult,
            unit * 2,
        ),
        composite_mult(mult, unit).wrapping_add(1).wrapping_mul(composite_inc(mult, inc, unit))
            == composite_inc(mult, inc, unit * 2),
{
    let r = 0x1_0000_0000int;
    let cur_mult = composite_mult(mult, unit);
    let cur_plus = composite_inc(mult, inc, unit);
    assert(unit + unit == unit * 2);
    lemma_composite_adds(mult, inc, unit, unit);
    lemma_wrapping_mul_add(cur_mult, cur_mult, 0);
    let next = cur_mult.wrapping_add(1);
    assert(next == (cur_mult + 1) % r);
    lemma_wrapping_mul_add(next, cur_plus, 0);
    lemma_affine_mod(cur_mult + 1, cur_plus as int, 0, r);
    lemma_small_mod(cur_plus as nat, r as nat);
    assert((cur_mult + 1) * cur_plus == cur_plus * cur_mult + cur_plus) by (nonlinear_arith);
}

/// Gives the state `delta` advances of the recurrence from `state`, in a
/// number of multiplications logarithmic in `delta`.
///
/// The recurrence has period 2^32 for an odd multiplier, so a jump by
/// `2^32 - k` goes `k` advances back.
pub fn jump_lcg32_32(delta: u32, state: u32, mult: u32, inc: u32) -> (r: u32)
    ensures
        r == lcg_steps(state, mult, inc, delta as nat),
        r == (composite_mult(mult, delta as nat) * state + composite_inc(
            mult,
            inc,
            delta as nat,
        )) % 0x1_0000_0000,
{
    let mut left: u32 = delta;
    let mut cur_mult: u32 = mult;
    let mut cur_plus: u32 = inc;
    let mut acc_mult: u32 = 1;
    let mut acc_plus: u32 = 0;
    let ghost mut unit: nat = 1;
    let ghost mut done: nat = 0;
    proof {
        lemma_composite_start(mult, inc);
    }
    while left > 0
        invariant
            done + left * unit == delta,
            unit > 0,
            cur_mult == composite_mult(mult, unit),
            cur_plus == composite_inc(mult, inc, unit),
            acc_mult == composite_mult(mult, done),
            acc_plus == composite_inc(mult, inc, done),
        decreases left,
    {
        let ghost odd: nat = if left & 1 > 0 { 1 } else { 0 };
        proof {
            let l = left;
            assert(l == 2 * (l / 2) + (if l & 1 > 0 { 1u32 } else { 0u32 })) by (bit_vector);
            assert(left * unit == (left / 2) * (unit * 2) + odd * unit) by (nonlinear_arith)
                requires
                    left == 2 * (left / 2) + odd,
            ;
            lemma_take_unit(mult, inc, done, unit);
            lemma_double_unit(mult, inc, unit);
        }
        if (left & 1) > 0 {
            acc_mult = acc_mult.wrapping_mul(cur_mult);
            acc_plus = acc_plus.wrapping_mul(cur_mult).wrapping_add(cur_plus);
            proof {
                done = done + unit;
            }
        }
        cur_plus = cur_mult.wrapping_add(1).wrapping_mul(cur_plus);
        cur_mult = cur_mult.wrapping_mul(cur_mult);
        left = left / 2;
        proof {
            unit = unit * 2;
        }
    }
    proof {
        assert(left * unit == 0) by (nonlinear_arith)
            requires
                left == 0,
        ;
        lemma_steps_closed_form(state, mult, inc, delta as nat);
        lemma_wrapping_mul_add(acc_mult, state, acc_plus);
    }
    acc_mult.wrapping_mul(state).wrapping_add(acc_plus)
}

/// Advancing `a` times and then `b` times is advancing `a + b` times.
pub proof fn lemma_steps_add(state: u32, mult: u32, inc: u32, a: nat, b: nat)
    ensures
        lcg_steps(lcg_steps(state, mult, inc, a), mult, inc, b) == lcg_steps(
            state,
            mult,
            inc,
            a + b,
        ),
    decreases b,
{
    if b > 0 {
        lemma_steps_add(state, mult, inc, a, (b - 1) as nat);
        assert(a + b - 1 == a + (b - 1) as nat);
    }
}

} // verus!
