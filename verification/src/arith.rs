//! Word-level modular arithmetic: Barrett reduction and the modular
//! identities that the polynomial code relies on.

use vstd::prelude::*;
use vstd::arithmetic::div_mod::*;
use vstd::arithmetic::mul::*;
use vstd::arithmetic::power::*;
use crate::params::Params;

verus! {

/// The Barrett constant of a modulus: `floor(2^64 / q)`.
pub open spec fn barrett_ratio(q: u64) -> int {
    0x1_0000_0000_0000_0000int / (q as int)
}

/// The quotient estimate `floor(x * c / 2^64)` is at most one below the true
/// quotient, so `x - est * q` lies in `[0, 2q)`.
proof fn lemma_barrett_estimate(x: int, c: int, q: int, est: int)
    requires
        0 <= x < 0x1_0000_0000_0000_0000,
        2 <= q,
        c == 0x1_0000_0000_0000_0000int / q,
        est == (x * c) / 0x1_0000_0000_0000_0000int,
    ensures
        0 <= est,
        est * q <= x,
        x - est * q < 2 * q,
{
    let w: int = 0x1_0000_0000_0000_0000int;
    let p: int = x * c;
    lemma_fundamental_div_mod(w, q);
    lemma_mod_bound(w, q);
    assert(w == q * c + w % q);
    assert(0 <= c) by {
        lemma_div_pos_is_pos(w, q);
    }
    assert(0 <= p) by (nonlinear_arith)
        requires p == x * c, 0 <= x, 0 <= c;
    lemma_fundamental_div_mod(p, w);
    lemma_mod_bound(p, w);
    assert(p == w * est + p % w);
    assert(0 <= est) by {
        lemma_div_pos_is_pos(p, w);
    }
    let cq: int = c * q;
    lemma_mul_is_commutative(c, q);
    assert(cq <= w && cq > w - q);
    assert(est * q * w <= x * w) by (nonlinear_arith)
        requires
            p == w * est + p % w,
            0 <= p % w,
            p == x * c,
            cq == c * q,
            cq <= w,
            0 <= x,
            0 <= q,
    {
        assert(w * est <= p);
        assert((w * est) * q <= p * q);
        assert(p * q == x * cq);
        assert(x * cq <= x * w);
    }
    assert(est * q <= x) by (nonlinear_arith)
        requires est * q * w <= x * w, w > 0;
    assert((x - est * q) * w < 2 * q * w) by (nonlinear_arith)
        requires
            p == w * est + p % w,
            p % w < w,
            p == x * c,
            cq == c * q,
            cq > w - q,
            0 <= x < w,
            2 <= q,
    {
        assert(w * est > p - w);
        assert((w * est) * q > (p - w) * q);
        assert(p * q == x * cq);
        assert(x * cq >= x * (w - q));
        assert(x * q < w * q);
    }
    assert(x - est * q < 2 * q) by (nonlinear_arith)
        requires (x - est * q) * w < 2 * q * w, w > 0;
}

/// One Barrett step: reduces any 64-bit word modulo `modulus`, given the
/// precomputed constant `floor(2^64 / modulus)`.
pub fn barrett_raw_u64(input: u64, const_ratio_1: u64, modulus: u64) -> (res: u64)
    requires
        modulus >= 2,
        const_ratio_1 as int == barrett_ratio(modulus),
    ensures
        res == input % modulus,
        res < modulus,
{
    assert((input as u128) * (const_ratio_1 as u128) <= u128::MAX) by (nonlinear_arith)
        requires
            input <= 0xffff_ffff_ffff_ffffu64,
            const_ratio_1 <= 0xffff_ffff_ffff_ffffu64,
    ;
    let wide: u128 = (input as u128) * (const_ratio_1 as u128);
    assert(wide >> 64 == wide / 0x1_0000_0000_0000_0000u128) by (bit_vector);
    assert((wide >> 64) <= 0xffff_ffff_ffff_ffffu128) by (bit_vector);
    let tmp: u64 = (wide >> 64) as u64;
    proof {
        lemma_barrett_estimate(
            input as int,
            const_ratio_1 as int,
            modulus as int,
            tmp as int,
        );
    }
    assert(tmp * modulus <= input) by {
        lemma_mul_is_commutative(tmp as int, modulus as int);
    }
    let res: u64 = input - tmp * modulus;
    proof {
        assert(input as int == (modulus as int) * (tmp as int) + (res as int)) by {
            lemma_mul_is_commutative(tmp as int, modulus as int);
        }
        assert(input as int == (modulus as int) * (tmp as int + 1) + (res as int - modulus as int))
            by (nonlinear_arith)
            requires input as int == (modulus as int) * (tmp as int) + (res as int);
        let r: int = res as int;
        let m: int = modulus as int;
        if r >= m {
            lemma_fundamental_div_mod_converse(input as int, m, tmp as int + 1, r - m);
        } else {
            lemma_fundamental_div_mod_converse(input as int, m, tmp as int, r);
        }
    }
    if res >= modulus {
        res - modulus
    } else {
        res
    }
}

/// Reduces `val` modulo the `n`-th modulus of the parameter set.
pub fn barrett_coeff_u64(params: &Params, val: u64, n: usize) -> (res: u64)
    requires
        params.wf(),
        n < params.crt_count,
    ensures
        res as int == (val as int) % params.q(n as int),
        (res as int) < params.q(n as int),
{
    barrett_raw_u64(val, params.barrett_cr_1[n], params.moduli[n])
}

/// Congruent numbers stay congruent when the same number is added to both.
pub proof fn lemma_mod_add_congruent(x: int, y: int, c: int, q: int)
    requires
        q > 0,
        x % q == y % q,
    ensures
        (x + c) % q == (y + c) % q,
{
    lemma_add_mod_noop(x, c, q);
    lemma_add_mod_noop(y, c, q);
}

/// Sums of congruent numbers are congruent.
pub proof fn lemma_add_congruent(a1: int, a2: int, b1: int, b2: int, q: int)
    requires
        q > 0,
        a1 % q == a2 % q,
        b1 % q == b2 % q,
    ensures
        (a1 + b1) % q == (a2 + b2) % q,
{
    lemma_add_mod_noop(a1, b1, q);
    lemma_add_mod_noop(a2, b2, q);
}

/// Products of congruent numbers are congruent.
pub proof fn lemma_mul_congruent(a1: int, a2: int, b1: int, b2: int, q: int)
    requires
        q > 0,
        a1 % q == a2 % q,
        b1 % q == b2 % q,
    ensures
        (a1 * b1) % q == (a2 * b2) % q,
{
    lemma_mul_mod_noop(a1, b1, q);
    lemma_mul_mod_noop(a2, b2, q);
}

/// A sum of three numbers may be reduced term by term.
pub proof fn lemma_add3_mod(a: int, b: int, c: int, q: int)
    requires
        q > 0,
    ensures
        ((a % q) + (b % q) + (c % q)) % q == (a + b + c) % q,
{
    lemma_add_mod_noop(a + b, c, q);
    lemma_add_mod_noop(a, b, q);
    lemma_add_mod_noop(a % q + b % q, c % q, q);
    lemma_mod_twice(c, q);
}

/// The Barrett constant of a modulus.
pub fn barrett_ratio_of(q: u64) -> (res: u64)
    requires
        q >= 2,
    ensures
        res as int == barrett_ratio(q),
{
    let one: u128 = 0x1_0000_0000_0000_0000;
    let r: u128 = one / (q as u128);
    assert(r <= 0x8000_0000_0000_0000) by {
        lemma_div_is_ordered_by_denominator(0x1_0000_0000_0000_0000int, 2, q as int);
    }
    r as u64
}

/// Product of two words modulo `q`, given the Barrett constant of `q`.
pub fn mul_mod_raw(a: u64, b: u64, q: u64, ratio: u64) -> (res: u64)
    requires
        2 <= q < 0x1000_0000,
        ratio as int == barrett_ratio(q),
    ensures
        res as int == ((a as int) * (b as int)) % (q as int),
        res < q,
{
    let x: u64 = barrett_raw_u64(a, ratio, q);
    let y: u64 = barrett_raw_u64(b, ratio, q);
    assert(x * y < 0x100_0000_0000_0000) by (nonlinear_arith)
        requires
            x < 0x1000_0000,
            y < 0x1000_0000,
    ;
    proof {
        lemma_mul_mod_noop(a as int, b as int, q as int);
    }
    barrett_raw_u64(x * y, ratio, q)
}

/// Product of two words modulo the `n`-th modulus.
pub fn mul_mod(params: &Params, a: u64, b: u64, n: usize) -> (res: u64)
    requires
        params.wf(),
        n < params.crt_count,
    ensures
        res as int == ((a as int) * (b as int)) % params.q(n as int),
        (res as int) < params.q(n as int),
{
    mul_mod_raw(a, b, params.moduli[n], params.barrett_cr_1[n])
}

/// `acc + a * w` modulo the `n`-th modulus, for a reduced `acc`.
pub fn mul_add_mod(params: &Params, acc: u64, a: u64, w: u64, n: usize) -> (res: u64)
    requires
        params.wf(),
        n < params.crt_count,
        (acc as int) < params.q(n as int),
    ensures
        res as int == ((acc as int) + (a as int) * (w as int)) % params.q(n as int),
        (res as int) < params.q(n as int),
{
    let p: u64 = mul_mod(params, a, w, n);
    proof {
        let q: int = params.q(n as int);
        lemma_add_mod_noop(acc as int, (a as int) * (w as int), q);
        lemma_small_mod(acc as nat, q as nat);
    }
    barrett_coeff_u64(params, acc + p, n)
}

/// Squaring the base halves an even exponent.
pub proof fn lemma_pow_square(b: int, k: nat)
    ensures
        pow(b, 2 * k) == pow(b * b, k),
{
    lemma_square_is_pow2(b);
    lemma_pow_multiplies(b, 2, k);
}

/// `base^exp` modulo `q`, by repeated squaring, given the Barrett constant
/// of `q`.
pub fn pow_mod_raw(base: u64, exp: u64, modulus: u64, ratio: u64) -> (res: u64)
    requires
        2 <= modulus < 0x1000_0000,
        ratio as int == barrett_ratio(modulus),
    ensures
        res as int == pow(base as int, exp as nat) % (modulus as int),
        res < modulus,
{
    let ghost q: int = modulus as int;
    let mut result: u64 = 1;
    let mut b: u64 = barrett_raw_u64(base, ratio, modulus);
    let mut e: u64 = exp;
    proof {
        lemma_pow_mod_noop(base as int, exp as nat, q);
        lemma_mul_basics(pow(b as int, e as nat));
    }
    while e > 0
        invariant
            2 <= modulus < 0x1000_0000,
            ratio as int == barrett_ratio(modulus),
            q == modulus,
            (result as int) < q,
            (b as int) < q,
            ((result as int) * pow(b as int, e as nat)) % q == pow(base as int, exp as nat) % q,
        decreases e,
    {
        let ghost r0: int = result as int;
        let ghost b0: int = b as int;
        let ghost e0: nat = e as nat;
        let ghost k: nat = (e / 2) as nat;
        if e % 2 == 1 {
            result = mul_mod_raw(result, b, modulus, ratio);
        }
        b = mul_mod_raw(b, b, modulus, ratio);
        e = e / 2;
        proof {
            let bit: nat = (e0 % 2) as nat;
            assert(e0 == 2 * k + bit);
            lemma_pow_adds(b0, 2 * k, bit);
            lemma_pow_square(b0, k);
            lemma_pow0(b0);
            lemma_pow1(b0);
            let sq: int = pow(b0 * b0, k);
            let lead: int = if bit == 1 {
                r0 * b0
            } else {
                r0
            };
            assert(r0 * pow(b0, e0) == lead * sq) by (nonlinear_arith)
                requires
                    pow(b0, e0) == sq * pow(b0, bit),
                    bit == 1 ==> pow(b0, bit) == b0 && lead == r0 * b0,
                    bit == 0 ==> pow(b0, bit) == 1 && lead == r0,
                    bit == 0 || bit == 1,
            ;
            lemma_pow_mod_noop(b0 * b0, k, q);
            assert(pow(b as int, k) % q == sq % q);
            assert(result as int == lead % q) by {
                if bit == 0 {
                    lemma_small_mod(r0 as nat, q as nat);
                }
            }
            lemma_mul_mod_noop(lead, sq, q);
            lemma_mul_mod_noop(result as int, pow(b as int, k), q);
            lemma_mod_twice(lead, q);
        }
    }
    proof {
        lemma_pow0(b as int);
        lemma_small_mod(result as nat, q as nat);
    }
    result
}

/// `base^exp` modulo the `n`-th modulus.
pub fn pow_mod(params: &Params, base: u64, exp: u64, n: usize) -> (res: u64)
    requires
        params.wf(),
        n < params.crt_count,
    ensures
        res as int == pow(base as int, exp as nat) % params.q(n as int),
        (res as int) < params.q(n as int),
{
    pow_mod_raw(base, exp, params.moduli[n], params.barrett_cr_1[n])
}

} // verus!
