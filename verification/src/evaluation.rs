//! Transforms as evaluations: position `z` of the transform of a polynomial
//! is its value at the odd power `psi^(2z+1)` of the root. The automorphism
//! `x -> x^t` moves the positions of the transform, and the digits of a
//! polynomial recompose under the transform.

use vstd::prelude::*;
use vstd::arithmetic::div_mod::*;
use vstd::arithmetic::mul::*;
use vstd::arithmetic::power::*;
use vstd::arithmetic::power2::*;
use crate::arith::{lemma_add_congruent, lemma_mul_congruent};
use crate::gadget::{
    bits_per, digit_sum, gadget_digit, lemma_digit_sum, lemma_gadget_recomposes,
};
use crate::ntt::{forward_coeff, power_sum};
use crate::params::{is_root, is_two_power, Params};
use crate::poly::{automorph_coeff, neg_mod};
use crate::round_trip::lemma_pow_minus_one;

verus! {

/// A weighted sum with step `de` is a plain sum of powers of `w^de`.
pub proof fn lemma_sum_repower(a: Seq<u64>, off: int, w: int, de: int, k: int)
    requires
        de >= 0,
        k >= 0,
    ensures
        power_sum(a, off, w, 0, de, k) == power_sum(a, off, pow(w, de as nat), 0, 1, k),
    decreases k,
{
    if k > 0 {
        lemma_sum_repower(a, off, w, de, k - 1);
        lemma_mul_nonnegative(de, k - 1);
        lemma_pow_multiplies(w, de as nat, (k - 1) as nat);
        assert((0 + de * (k - 1)) as nat == (de as nat) * ((k - 1) as nat));
        assert((0 + 1 * (k - 1)) as nat == (k - 1) as nat);
    }
}

/// Sums at congruent points are congruent.
pub proof fn lemma_sum_point_congruent(a: Seq<u64>, off: int, x: int, y: int, q: int, k: int)
    requires
        q > 0,
        k >= 0,
        x % q == y % q,
    ensures
        power_sum(a, off, x, 0, 1, k) % q == power_sum(a, off, y, 0, 1, k) % q,
    decreases k,
{
    if k > 0 {
        lemma_sum_point_congruent(a, off, x, y, q, k - 1);
        let e: nat = (0 + 1 * (k - 1)) as nat;
        let c: int = a[off + k - 1] as int;
        lemma_pow_mod_noop(x, e, q);
        lemma_pow_mod_noop(y, e, q);
        lemma_mul_congruent(c, c, pow(x, e), pow(y, e), q);
        lemma_add_congruent(
            power_sum(a, off, x, 0, 1, k - 1),
            power_sum(a, off, y, 0, 1, k - 1),
            c * pow(x, e),
            c * pow(y, e),
            q,
        );
    }
}

/// Sums over blocks with the same words are the same.
pub proof fn lemma_sum_same(
    a: Seq<u64>,
    off: int,
    b: Seq<u64>,
    off2: int,
    w: int,
    e0: int,
    de: int,
    k: int,
)
    requires
        k >= 0,
        forall|j: int| 0 <= j < k ==> #[trigger] a[off + j] == b[off2 + j],
    ensures
        power_sum(a, off, w, e0, de, k) == power_sum(b, off2, w, e0, de, k),
    decreases k,
{
    if k > 0 {
        lemma_sum_same(a, off, b, off2, w, e0, de, k - 1);
        assert(a[off + (k - 1)] == b[off2 + (k - 1)]);
    }
}

/// Changing one word of a block changes the plain sum by the change times
/// the power of the point at that word.
proof fn lemma_sum_update(s: Seq<u64>, p: int, v: u64, x: int, k: int)
    requires
        0 <= p < s.len(),
        0 <= k <= s.len(),
    ensures
        power_sum(s.update(p, v), 0, x, 0, 1, k) == power_sum(s, 0, x, 0, 1, k) + (if p < k {
            ((v as int) - (s[p] as int)) * pow(x, p as nat)
        } else {
            0
        }),
    decreases k,
{
    if k > 0 {
        lemma_sum_update(s, p, v, x, k - 1);
        let e: nat = (0 + 1 * (k - 1)) as nat;
        let px: int = pow(x, e);
        if p == k - 1 {
            assert(e == p as nat);
            assert((v as int) * px == (s[p] as int) * px + ((v as int) - (s[p] as int)) * px)
                by (nonlinear_arith);
        }
    }
}

/// An odd number has no multiple below a power of two times itself that the
/// power of two divides: for odd `t` and `0 < d < len`, `len` does not
/// divide `d * t`.
pub proof fn lemma_odd_multiple(len: int, t: int, d: int)
    requires
        is_two_power(len),
        t % 2 == 1,
        0 < d < len,
    ensures
        (d * t) % len != 0,
    decreases len,
{
    let m: int = len / 2;
    assert(len == 2 * m && is_two_power(m));
    if (d * t) % len == 0 {
        lemma_fundamental_div_mod(d * t, len);
        let c: int = (d * t) / len;
        assert(d * t == 2 * (m * c)) by (nonlinear_arith)
            requires
                d * t == len * c + 0,
                len == 2 * m,
        ;
        // d is even, because t is odd
        lemma_mul_mod_noop(d, t, 2);
        lemma_fundamental_div_mod_converse(d * t, 2, m * c, 0);
        if d % 2 == 1 {
            assert((1 * 1) % 2 == 1);
            assert(false);
        }
        lemma_fundamental_div_mod(d, 2);
        let h: int = d / 2;
        assert(0 < h < m);
        assert(h * t == m * c) by (nonlinear_arith)
            requires
                d == 2 * h,
                d * t == 2 * (m * c),
        ;
        lemma_mul_is_commutative(m, c);
        lemma_fundamental_div_mod_converse(h * t, m, c, 0);
        lemma_odd_multiple(m, t, h);
    }
}

/// The coefficient that the automorphism puts at position `k` is zero
/// while no source coefficient has landed there.
proof fn lemma_untouched(a: Seq<u64>, off: int, len: int, t: int, q: u64, k: int, i: int)
    requires
        len >= 1,
        0 <= k < len,
        0 <= i,
        forall|j: int| 0 <= j < i ==> #[trigger] ((j * t) % len) != k,
        t >= 0,
    ensures
        automorph_coeff(a, off, len, t, q, k, i) == 0,
    decreases i,
{
    if i > 0 {
        lemma_untouched(a, off, len, t, q, k, i - 1);
        let x: int = (i - 1) * t;
        assert((x % len) != k);
        lemma_mul_nonnegative(i - 1, t);
        lemma_mod_mod(x, len, 2);
        lemma_mul_is_commutative(len, 2);
        let e: int = x % (2 * len);
        lemma_mod_bound(x, 2 * len);
        assert(e % len == x % len);
        if e == k {
            lemma_small_mod(e as nat, len as nat);
        }
        if e == k + len {
            lemma_fundamental_div_mod_converse(e, len, 1, k);
        }
    }
}

/// The coefficients of the image under `x -> x^t` after the first `i`
/// source coefficients have been placed.
pub open spec fn partial_image(
    a: Seq<u64>,
    off: int,
    len: int,
    t: int,
    q: u64,
    i: int,
) -> Seq<u64> {
    Seq::new(len as nat, |k: int| automorph_coeff(a, off, len, t, q, k, i))
}

/// The value of the image of a polynomial under `x -> x^t` at a point
/// `x0` with `x0^len = -1` is the value of the polynomial at `x0^t`: the
/// plain sum over the image is the sum of the coefficients weighted by the
/// powers of `x0^t`, modulo every `q` that divides the coefficient modulus.
pub proof fn lemma_image_value(
    a: Seq<u64>,
    off: int,
    len: int,
    t: int,
    modulus: u64,
    x0: int,
    q: int,
    i: int,
)
    requires
        q >= 2,
        modulus >= 1,
        (modulus as int) % q == 0,
        is_two_power(len),
        is_root(x0, len, q),
        t >= 1,
        t % 2 == 1,
        0 <= i <= len,
    ensures
        power_sum(partial_image(a, off, len, t, modulus, i), 0, x0, 0, 1, len) % q == power_sum(
            a,
            off,
            x0,
            0,
            t,
            i,
        ) % q,
    decreases i,
{
    let cur: Seq<u64> = partial_image(a, off, len, t, modulus, i);
    if i == 0 {
        let zero: Seq<u64> = partial_image(a, off, len, t, modulus, 0);
        lemma_zero_sum(zero, x0, len);
    } else {
        let before: Seq<u64> = partial_image(a, off, len, t, modulus, i - 1);
        lemma_image_value(a, off, len, t, modulus, x0, q, i - 1);
        let j: int = i - 1;
        let x: int = j * t;
        lemma_mul_nonnegative(j, t);
        let e: int = x % (2 * len);
        lemma_mod_bound(x, 2 * len);
        lemma_fundamental_div_mod(x, 2 * len);
        let turns: int = x / (2 * len);
        lemma_div_pos_is_pos(x, 2 * len);
        let k: int = if e < len {
            e
        } else {
            e - len
        };
        let c: u64 = a[off + i - 1];
        let v: u64 = if e < len {
            c
        } else {
            neg_mod(c, modulus)
        };
        // the position was not written before
        lemma_mod_mod(x, len, 2);
        lemma_mul_is_commutative(len, 2);
        if e < len {
            lemma_small_mod(e as nat, len as nat);
        } else {
            lemma_fundamental_div_mod_converse(e, len, 1, e - len);
        }
        assert(x % len == k);
        assert forall|j2: int| 0 <= j2 < j implies #[trigger] ((j2 * t) % len) != k by {
            let d: int = j - j2;
            lemma_odd_multiple(len, t, d);
            assert(d * t == j * t - j2 * t) by (nonlinear_arith)
                requires
                    d == j - j2,
            ;
            lemma_sub_mod_noop(j * t, j2 * t, len);
            if (j2 * t) % len == k {
                lemma_small_mod(0, len as nat);
                assert(false);
            }
        }
        lemma_untouched(a, off, len, t, modulus, k, j);
        assert(before[k] == 0);
        assert(cur =~= before.update(k, v));
        lemma_sum_update(before, k, v, x0, len);
        // v * x0^k is c * x0^(j t) modulo q
        let pk: int = pow(x0, k as nat);
        let pe: int = pow(x0, e as nat);
        let px: int = pow(x0, x as nat);
        assert((v as int) * pk % q == (c as int) * px % q) by {
            // x0^(2 len) is one
            lemma_pow_adds(x0, len as nat, len as nat);
            lemma_small_mod((q - 1) as nat, q as nat);
            lemma_small_mod(1, q as nat);
            lemma_mul_congruent(pow(x0, len as nat), q - 1, pow(x0, len as nat), q - 1, q);
            assert((q - 1) * (q - 1) == q * (q - 2) + 1) by (nonlinear_arith);
            lemma_fundamental_div_mod_converse((q - 1) * (q - 1), q, q - 2, 1);
            let full: int = pow(x0, (2 * len) as nat);
            assert(len as nat + len as nat == (2 * len) as nat);
            assert(full % q == 1);
            // x0^x = x0^e * (x0^(2 len))^turns
            lemma_mul_nonnegative(2 * len, turns);
            lemma_pow_adds(x0, e as nat, ((2 * len) * turns) as nat);
            lemma_pow_multiplies(x0, (2 * len) as nat, turns as nat);
            lemma_pow_mod_noop(full, turns as nat, q);
            lemma1_pow(turns as nat);
            assert(x as nat == e as nat + ((2 * len) * turns) as nat);
            assert(((2 * len) as nat) * (turns as nat) == ((2 * len) * turns) as nat);
            lemma_mul_congruent(pe, pe, pow(full, turns as nat), 1, q);
            assert(pe * 1 == pe);
            assert(px % q == pe % q);
            if e < len {
                lemma_mul_congruent(c as int, c as int, pe, px, q);
            } else {
                // x0^e = x0^k * x0^len = -x0^k, and v = -c
                lemma_pow_adds(x0, k as nat, len as nat);
                assert(k as nat + len as nat == e as nat);
                lemma_mul_congruent(pk, pk, pow(x0, len as nat), q - 1, q);
                // v is (q - 1) * c modulo q
                let ci: int = c as int;
                let cm: int = ci % (modulus as int);
                lemma_mod_bound(ci, modulus as int);
                lemma_fundamental_div_mod(modulus as int, q);
                let mq: int = (modulus as int) / q;
                lemma_mul_is_commutative(q, mq);
                lemma_div_pos_is_pos(modulus as int, q);
                if mq == 0 {
                    assert(q * 0 == 0);
                }
                lemma_mod_mod(ci, q, mq);
                assert(cm % q == ci % q);
                lemma_mod_self_0(q);
                lemma_small_mod(0, q as nat);
                if cm == 0 {
                    assert(v == 0);
                    lemma_mul_congruent(q - 1, q - 1, ci, 0, q);
                    assert((q - 1) * 0 == 0);
                    assert(0 * pk == 0);
                } else {
                    assert(v as int == modulus - cm);
                    // modulus - cm = -cm = (q - 1) * cm
                    lemma_sub_mod_noop(modulus as int, cm, q);
                    lemma_sub_mod_noop(0, cm, q);
                    assert((q - 1) * cm == q * cm + (0 - cm)) by (nonlinear_arith);
                    lemma_mod_multiples_vanish(cm, 0 - cm, q);
                    lemma_mul_congruent(q - 1, q - 1, cm, ci, q);
                }
                assert((v as int) % q == ((q - 1) * ci) % q);
                // c * x0^x = c * x0^e = c * (x0^k * (q - 1))
                lemma_mul_congruent(ci, ci, px, pk * (q - 1), q);
                lemma_mul_congruent(v as int, (q - 1) * ci, pk, pk, q);
                assert(((q - 1) * ci) * pk == ci * (pk * (q - 1))) by (nonlinear_arith);
            }
        }
        assert((0 + t * (i - 1)) as nat == x as nat) by (nonlinear_arith)
            requires
                x == j * t,
                j == i - 1,
                x >= 0,
        ;
        assert(((v as int) - (before[k] as int)) * pk == (v as int) * pk);
        lemma_add_congruent(
            power_sum(before, 0, x0, 0, 1, len),
            power_sum(a, off, x0, 0, t, i - 1),
            (v as int) * pk,
            (c as int) * px,
            q,
        );
    }
}

/// A block of zeros has sum zero.
proof fn lemma_zero_sum(s: Seq<u64>, x: int, k: int)
    requires
        0 <= k <= s.len(),
        forall|j: int| 0 <= j < s.len() ==> #[trigger] s[j] == 0,
    ensures
        power_sum(s, 0, x, 0, 1, k) == 0,
    decreases k,
{
    if k > 0 {
        lemma_zero_sum(s, x, k - 1);
        assert(s[k - 1] == 0);
        assert(s[0 + k - 1] == 0);
        assert(0 * pow(x, (0 + 1 * (k - 1)) as nat) == 0);
    }
}

/// The powers of a root of unity of order `2 * len` repeat with period
/// `2 * len`.
pub proof fn lemma_pow_period(x0: int, len: int, q: int, x: int)
    requires
        q >= 2,
        len >= 1,
        is_root(x0, len, q),
        x >= 0,
    ensures
        pow(x0, x as nat) % q == pow(x0, (x % (2 * len)) as nat) % q,
{
    let e: int = x % (2 * len);
    lemma_mod_bound(x, 2 * len);
    lemma_fundamental_div_mod(x, 2 * len);
    let turns: int = x / (2 * len);
    lemma_div_pos_is_pos(x, 2 * len);
    lemma_pow_adds(x0, len as nat, len as nat);
    lemma_small_mod((q - 1) as nat, q as nat);
    lemma_small_mod(1, q as nat);
    lemma_mul_congruent(pow(x0, len as nat), q - 1, pow(x0, len as nat), q - 1, q);
    assert((q - 1) * (q - 1) == q * (q - 2) + 1) by (nonlinear_arith);
    lemma_fundamental_div_mod_converse((q - 1) * (q - 1), q, q - 2, 1);
    let full: int = pow(x0, (2 * len) as nat);
    assert(len as nat + len as nat == (2 * len) as nat);
    lemma_mul_nonnegative(2 * len, turns);
    lemma_pow_adds(x0, e as nat, ((2 * len) * turns) as nat);
    lemma_pow_multiplies(x0, (2 * len) as nat, turns as nat);
    lemma_pow_mod_noop(full, turns as nat, q);
    lemma1_pow(turns as nat);
    assert(x as nat == e as nat + ((2 * len) * turns) as nat);
    assert(((2 * len) as nat) * (turns as nat) == ((2 * len) * turns) as nat);
    let pe: int = pow(x0, e as nat);
    lemma_mul_congruent(pe, pe, pow(full, turns as nat), 1, q);
    assert(pe * 1 == pe);
}

/// The position of the transform whose point is the `t`-th power of the
/// point of position `z`: `psi^((2z+1) t)` is `psi^(2z'+1)` for this `z'`.
pub open spec fn slot_image(len: int, t: int, z: int) -> int {
    (((2 * z + 1) * t) % (2 * len)) / 2
}

/// For odd `t` the image of a position is a position, and its point has the
/// exponent `(2z+1) t` reduced modulo `2 * len`.
pub proof fn lemma_slot_image(len: int, t: int, z: int)
    requires
        len >= 1,
        t >= 1,
        t % 2 == 1,
        0 <= z < len,
    ensures
        0 <= slot_image(len, t, z) < len,
        2 * slot_image(len, t, z) + 1 == ((2 * z + 1) * t) % (2 * len),
{
    let x: int = (2 * z + 1) * t;
    lemma_mul_nonnegative(2 * z + 1, t);
    let e: int = x % (2 * len);
    lemma_mod_bound(x, 2 * len);
    lemma_mul_mod_noop(2 * z + 1, t, 2);
    assert((1 * 1) % 2 == 1);
    lemma_mod_mod(x, 2, len);
    assert(e % 2 == 1);
    lemma_fundamental_div_mod(e, 2);
}

/// The transform of the image of a polynomial under `x -> x^t`, for odd
/// `t`, is the transform of the polynomial with its positions moved:
/// position `z` of the one is position `slot_image(z)` of the other.
pub proof fn lemma_transform_of_image(
    params: &Params,
    n: int,
    raw: Seq<u64>,
    off: int,
    t: int,
    img: Seq<u64>,
    off2: int,
    z: int,
)
    requires
        params.wf(),
        0 <= n < params.crt_count,
        0 <= z < params.poly_len,
        t >= 1,
        t % 2 == 1,
        forall|k: int|
            0 <= k < params.poly_len ==> #[trigger] img[off2 + k] == automorph_coeff(
                raw,
                off,
                params.poly_len as int,
                t,
                params.modulus,
                k,
                params.poly_len as int,
            ),
    ensures
        0 <= slot_image(params.poly_len as int, t, z) < params.poly_len,
        forward_coeff(img, off2, params.poly_len as int, params.roots@[n] as int, params.q(n), z)
            == forward_coeff(
            raw,
            off,
            params.poly_len as int,
            params.roots@[n] as int,
            params.q(n),
            slot_image(params.poly_len as int, t, z),
        ),
{
    let len: int = params.poly_len as int;
    let q: int = params.q(n);
    let psi: int = params.roots@[n] as int;
    let zi: int = slot_image(len, t, z);
    assert(params.residue_wf(0));
    assert(params.residue_wf(n));
    lemma_slot_image(len, t, z);
    // the point of position z is a root of unity of order 2 len
    let x0: int = pow(psi, (2 * z + 1) as nat);
    lemma_pow_multiplies(psi, len as nat, (2 * z + 1) as nat);
    lemma_pow_multiplies(psi, (2 * z + 1) as nat, len as nat);
    lemma_mul_is_commutative(len, 2 * z + 1);
    assert((len as nat) * ((2 * z + 1) as nat) == ((2 * z + 1) as nat) * (len as nat));
    lemma_pow_minus_one(pow(psi, len as nat), q, 2 * z + 1);
    assert(is_root(x0, len, q));
    // the modulus of the coefficients is a multiple of q
    if params.crt_count == 1 {
        lemma_mod_self_0(q);
    } else {
        assert(params.residue_wf(1));
        lemma_mod_multiples_basic(params.q(0), params.q(1));
        lemma_mod_multiples_basic(params.q(1), params.q(0));
        lemma_mul_is_commutative(params.q(0), params.q(1));
    }
    let part: Seq<u64> = partial_image(raw, off, len, t, params.modulus, len);
    lemma_sum_repower(img, off2, psi, 2 * z + 1, len);
    lemma_sum_same(img, off2, part, 0, x0, 0, 1, len);
    lemma_image_value(raw, off, len, t, params.modulus, x0, q, len);
    lemma_sum_repower(raw, off, x0, t, len);
    // the t-th power of the point is the point of the image position
    let x: int = (2 * z + 1) * t;
    lemma_mul_nonnegative(2 * z + 1, t);
    lemma_pow_multiplies(psi, (2 * z + 1) as nat, t as nat);
    assert(((2 * z + 1) as nat) * (t as nat) == x as nat);
    lemma_pow_period(psi, len, q, x);
    let y0: int = pow(psi, (2 * zi + 1) as nat);
    lemma_sum_point_congruent(raw, off, pow(x0, t as nat), y0, q, len);
    lemma_sum_repower(raw, off, psi, 2 * zi + 1, len);
}

/// Sum over the first `k` digits of the digit weight `2^(bits k')` times
/// the weighted sum of the polynomial of digit `k'`, which starts at
/// `base + k' * stride`.
pub open spec fn digit_transform_sum(
    digits: Seq<u64>,
    base: int,
    stride: int,
    len: int,
    w: int,
    de: int,
    bits: int,
    k: int,
) -> int
    decreases k,
{
    if k <= 0 {
        0
    } else {
        digit_transform_sum(digits, base, stride, len, w, de, bits, k - 1) + (pow2(
            (bits * (k - 1)) as nat,
        ) as int) * power_sum(digits, base + (k - 1) * stride, w, 0, de, len)
    }
}

/// The number that the first `k` digits of every coefficient stand for.
pub open spec fn partial_values(a: Seq<u64>, off: int, len: int, bits: int, k: int) -> Seq<u64> {
    Seq::new(len as nat, |j: int| digit_sum(a[off + j], bits, k) as u64)
}

/// The sum over words that are words of `x` plus `c` times words of `d` is
/// the sum over `x` plus `c` times the sum over `d`.
proof fn lemma_sum_add_scaled(
    y: Seq<u64>,
    x: Seq<u64>,
    d: Seq<u64>,
    offd: int,
    c: int,
    w: int,
    de: int,
    k: int,
)
    requires
        k >= 0,
        forall|j: int|
            0 <= j < k ==> (#[trigger] y[j] as int) == (x[j] as int) + c * (d[offd + j] as int),
    ensures
        power_sum(y, 0, w, 0, de, k) == power_sum(x, 0, w, 0, de, k) + c * power_sum(
            d,
            offd,
            w,
            0,
            de,
            k,
        ),
    decreases k,
{
    if k > 0 {
        lemma_sum_add_scaled(y, x, d, offd, c, w, de, k - 1);
        let pw: int = pow(w, (0 + de * (k - 1)) as nat);
        let yv: int = y[k - 1] as int;
        let xv: int = x[k - 1] as int;
        let dv: int = d[offd + (k - 1)] as int;
        assert(yv == xv + c * dv);
        assert(y[0 + k - 1] == y[k - 1] && x[0 + k - 1] == x[k - 1]);
        let sx: int = power_sum(x, 0, w, 0, de, k - 1);
        let sd: int = power_sum(d, offd, w, 0, de, k - 1);
        assert((sx + c * sd) + (xv + c * dv) * pw == (sx + xv * pw) + c * (sd + dv * pw))
            by (nonlinear_arith);
    } else {
        assert(c * 0 == 0);
    }
}

/// The digits recompose under the transform: the weighted sums of the digit
/// polynomials of a polynomial, each times its digit weight, add up to the
/// weighted sum of the polynomial, where the `dim` digits have the size
/// that goes with `dim` and every coefficient lies below the ciphertext
/// modulus.
pub proof fn lemma_digits_recompose(
    params: &Params,
    a: Seq<u64>,
    off: int,
    digits: Seq<u64>,
    base: int,
    stride: int,
    dim: int,
    w: int,
    de: int,
)
    requires
        params.wf(),
        dim >= 1,
        forall|j: int| 0 <= j < params.poly_len ==> #[trigger] a[off + j] < params.modulus,
        forall|k: int, j: int|
            0 <= k < dim && 0 <= j < params.poly_len ==> #[trigger] digits[base + k * stride + j]
                == gadget_digit(a[off + j], bits_per(params, dim), k),
    ensures
        digit_transform_sum(
            digits,
            base,
            stride,
            params.poly_len as int,
            w,
            de,
            bits_per(params, dim),
            dim,
        ) == power_sum(a, off, w, 0, de, params.poly_len as int),
{
    let len: int = params.poly_len as int;
    let bits: int = bits_per(params, dim);
    lemma_div_pos_is_pos(params.modulus_log2 as int, dim);
    assert(bits >= 1);
    lemma_digits_partial(params, a, off, digits, base, stride, dim, w, de, dim);
    let all: Seq<u64> = partial_values(a, off, len, bits, dim);
    assert forall|j: int| 0 <= j < len implies #[trigger] all[0 + j] == a[off + j] by {
        lemma_gadget_recomposes(params, a[off + j], dim);
    }
    lemma_sum_same(all, 0, a, off, w, 0, de, len);
}

/// The first `k` digit polynomials add up to the polynomial of the numbers
/// that the first `k` digits stand for.
proof fn lemma_digits_partial(
    params: &Params,
    a: Seq<u64>,
    off: int,
    digits: Seq<u64>,
    base: int,
    stride: int,
    dim: int,
    w: int,
    de: int,
    k: int,
)
    requires
        params.wf(),
        bits_per(params, dim) >= 1,
        0 <= k <= dim,
        forall|k2: int, j: int|
            0 <= k2 < dim && 0 <= j < params.poly_len ==> #[trigger] digits[base + k2 * stride + j]
                == gadget_digit(a[off + j], bits_per(params, dim), k2),
    ensures
        digit_transform_sum(
            digits,
            base,
            stride,
            params.poly_len as int,
            w,
            de,
            bits_per(params, dim),
            k,
        ) == power_sum(
            partial_values(a, off, params.poly_len as int, bits_per(params, dim), k),
            0,
            w,
            0,
            de,
            params.poly_len as int,
        ),
    decreases k,
{
    let len: int = params.poly_len as int;
    let bits: int = bits_per(params, dim);
    let cur: Seq<u64> = partial_values(a, off, len, bits, k);
    if k > 0 {
        lemma_digits_partial(params, a, off, digits, base, stride, dim, w, de, k - 1);
        let before: Seq<u64> = partial_values(a, off, len, bits, k - 1);
        lemma_mul_nonnegative(bits, k - 1);
        let weight: int = pow2((bits * (k - 1)) as nat) as int;
        assert forall|j: int| 0 <= j < len implies (#[trigger] cur[j] as int) == (before[j] as int)
            + weight * (digits[base + (k - 1) * stride + j] as int) by {
            let val: u64 = a[off + j];
            lemma_digit_sum(val, bits, k);
            lemma_digit_sum(val, bits, k - 1);
            lemma_mul_nonnegative(bits, k);
            lemma_pow2_pos((bits * k) as nat);
            lemma_pow2_pos((bits * (k - 1)) as nat);
            lemma_mod_decreases(val as nat, pow2((bits * k) as nat));
            lemma_mod_decreases(val as nat, pow2((bits * (k - 1)) as nat));
            lemma_mod_bound(val as int, pow2((bits * k) as nat) as int);
            lemma_mod_bound(val as int, pow2((bits * (k - 1)) as nat) as int);
            assert(digits[base + (k - 1) * stride + j] == gadget_digit(val, bits, k - 1));
            lemma_mul_is_commutative(weight, gadget_digit(val, bits, k - 1) as int);
        }
        lemma_sum_add_scaled(cur, before, digits, base + (k - 1) * stride, weight, w, de, len);
    } else {
        assert forall|j: int| 0 <= j < cur.len() implies #[trigger] cur[j] == 0 by {}
        lemma_zero_weighted_sum(cur, w, de, len);
    }
}

/// A block of zeros has weighted sum zero.
proof fn lemma_zero_weighted_sum(s: Seq<u64>, w: int, de: int, k: int)
    requires
        0 <= k <= s.len(),
        forall|j: int| 0 <= j < s.len() ==> #[trigger] s[j] == 0,
    ensures
        power_sum(s, 0, w, 0, de, k) == 0,
    decreases k,
{
    if k > 0 {
        lemma_zero_weighted_sum(s, w, de, k - 1);
        assert(s[k - 1] == 0);
        assert(s[0 + k - 1] == 0);
        assert(0 * pow(w, (0 + de * (k - 1)) as nat) == 0);
    }
}

/// The point of a position of the transform, `psi^(2z+1)`, is a root of
/// unity of order `2 * len` like `psi`.
pub proof fn lemma_point_is_root(psi: int, len: int, q: int, z: int)
    requires
        q >= 2,
        len >= 1,
        z >= 0,
        is_root(psi, len, q),
    ensures
        is_root(pow(psi, (2 * z + 1) as nat), len, q),
{
    lemma_pow_multiplies(psi, len as nat, (2 * z + 1) as nat);
    lemma_pow_multiplies(psi, (2 * z + 1) as nat, len as nat);
    lemma_mul_is_commutative(len, 2 * z + 1);
    assert((len as nat) * ((2 * z + 1) as nat) == ((2 * z + 1) as nat) * (len as nat));
    lemma_pow_minus_one(pow(psi, len as nat), q, 2 * z + 1);
}

/// Powers of a root of unity of order `2 * len` with exponents that agree
/// modulo `2 * len` agree modulo `q`.
pub proof fn lemma_pow_same_class(x0: int, len: int, q: int, a: int, b: int)
    requires
        q >= 2,
        len >= 1,
        is_root(x0, len, q),
        a >= 0,
        b >= 0,
        a % (2 * len) == b % (2 * len),
    ensures
        pow(x0, a as nat) % q == pow(x0, b as nat) % q,
{
    lemma_pow_period(x0, len, q, a);
    lemma_pow_period(x0, len, q, b);
}

/// The point of the image of a position is the `t`-th power of the point
/// of the position, modulo `q`.
pub proof fn lemma_image_point(psi: int, len: int, q: int, t: int, z: int)
    requires
        q >= 2,
        len >= 1,
        is_root(psi, len, q),
        t >= 1,
        t % 2 == 1,
        0 <= z < len,
    ensures
        pow(psi, (2 * slot_image(len, t, z) + 1) as nat) % q == pow(
            pow(psi, (2 * z + 1) as nat),
            t as nat,
        ) % q,
{
    lemma_slot_image(len, t, z);
    let x: int = (2 * z + 1) * t;
    lemma_mul_nonnegative(2 * z + 1, t);
    lemma_pow_multiplies(psi, (2 * z + 1) as nat, t as nat);
    assert(((2 * z + 1) as nat) * (t as nat) == x as nat);
    lemma_pow_period(psi, len, q, x);
}

} // verus!
