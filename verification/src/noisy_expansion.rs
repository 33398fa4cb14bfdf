//! Expansion with noise: where the keys and the query carry noise within a
//! budget, the expanded ciphertexts still decode to one at the target and
//! to zero elsewhere. The noise of a ciphertext is a polynomial with small
//! coefficients; an expansion doubles it and adds the noise of the key
//! times the digits.

use vstd::prelude::*;
use vstd::arithmetic::div_mod::*;
use vstd::arithmetic::mul::*;
use vstd::arithmetic::power::*;
use vstd::arithmetic::power2::*;
use crate::arith::{lemma_add_congruent, lemma_mul_congruent};
use crate::decrypt::decrypted;
use crate::evaluation::{
    digit_transform_sum, lemma_image_point, lemma_odd_multiple, lemma_point_is_root,
    lemma_pow_period, lemma_slot_image, lemma_sum_repower, slot_image,
};
use crate::expansion_law::{
    decodes_to_zero, frozen, is_shift, lemma_expansion_phase_parts, lemma_scaled_phase,
    lemma_signal_spread, lemma_signal_step, level_after, level_coefficient, level_during,
    level_exponent, only_odd_skipped,
};
use crate::gadget::{bits_per, gadget_data};
use crate::noise::{
    bounded, conv, eval, lemma_decrypts_to_reduced, lemma_eval_add_scaled, lemma_eval_conv,
    lemma_eval_shift, lemma_eval_zero, lemma_shift_bounded, lemma_sum_is_eval,
    lemma_total_bounded, one_hot_up_to, reduced, shift, total,
};
use crate::ntt::power_sum;
use crate::params::{is_root, is_two_power, Params};
use crate::poly::{
    automorph_data, column_phase, from_ntt_data, lemma_ntt_index, ntt_index, phase_product,
    scalar_multiply_data, to_ntt_data, to_ntt_word, PolyMatrixNTT,
};
use crate::server::{expand_ct, expansion, expansion_round, expansion_step, skipped};

verus! {

/// The coefficient at position `k` of the image under `x -> x^t` of the
/// polynomial with the integer coefficients `c`, counting only its first
/// `i` coefficients: coefficient `j` goes to position `j * t mod 2 * len`,
/// and a position `k + len` stands for position `k` with the sign changed.
pub open spec fn int_image_coeff(c: Seq<int>, len: int, t: int, k: int, i: int) -> int
    decreases i,
{
    if i <= 0 {
        0
    } else {
        let e: int = ((i - 1) * t) % (2 * len);
        if e == k {
            c[i - 1]
        } else if e == k + len {
            -c[i - 1]
        } else {
            int_image_coeff(c, len, t, k, i - 1)
        }
    }
}

/// The image under `x -> x^t` of the polynomial with the first `i` of the
/// integer coefficients `c`.
pub open spec fn int_image(c: Seq<int>, t: int, i: int) -> Seq<int> {
    Seq::new(c.len(), |k: int| int_image_coeff(c, c.len() as int, t, k, i))
}

/// The image of a polynomial has coefficients within the bound of the
/// polynomial.
pub proof fn lemma_int_image_bounded(c: Seq<int>, t: int, k: int, i: int, bound: int)
    requires
        0 <= i <= c.len(),
        bound >= 0,
        bounded(c, bound),
    ensures
        -bound <= int_image_coeff(c, c.len() as int, t, k, i) <= bound,
    decreases i,
{
    if i > 0 {
        lemma_int_image_bounded(c, t, k, i - 1, bound);
        assert(-bound <= c[i - 1] <= bound);
    }
}

/// The coefficient at position `k` is zero while no coefficient has landed
/// there.
proof fn lemma_int_untouched(c: Seq<int>, len: int, t: int, k: int, i: int)
    requires
        len >= 1,
        0 <= k < len,
        0 <= i,
        t >= 0,
        forall|j: int| 0 <= j < i ==> #[trigger] ((j * t) % len) != k,
    ensures
        int_image_coeff(c, len, t, k, i) == 0,
    decreases i,
{
    if i > 0 {
        lemma_int_untouched(c, len, t, k, i - 1);
        let x: int = (i - 1) * t;
        assert((x % len) != k);
        lemma_mul_nonnegative(i - 1, t);
        lemma_mod_mod(x, len, 2);
        lemma_mul_is_commutative(len, 2);
        let e: int = x % (2 * len);
        lemma_mod_bound(x, 2 * len);
        assert(e % len == x % len);
        if e == k {
            lemma_small_mod(e as nat, len as nat);
        }
        if e == k + len {
            lemma_fundamental_div_mod_converse(e, len, 1, k);
        }
    }
}

/// Changing one coefficient changes the value by the change times the
/// power of the point.
proof fn lemma_eval_update(c: Seq<int>, p: int, v: int, x: int, k: int)
    requires
        0 <= p < c.len(),
        0 <= k <= c.len(),
    ensures
        eval(c.update(p, v), x, k) == eval(c, x, k) + (if p < k {
            (v - c[p]) * pow(x, p as nat)
        } else {
            0
        }),
    decreases k,
{
    if k > 0 {
        lemma_eval_update(c, p, v, x, k - 1);
        let px: int = pow(x, (k - 1) as nat);
        if p == k - 1 {
            assert(v * px == c[p] * px + (v - c[p]) * px) by (nonlinear_arith);
        }
    }
}

/// The value with coefficient `j` weighted by `x^(t j)` of the first `k`
/// coefficients.
pub open spec fn eval_step(c: Seq<int>, x: int, t: int, k: int) -> int
    decreases k,
{
    if k <= 0 {
        0
    } else {
        eval_step(c, x, t, k - 1) + c[k - 1] * pow(x, (t * (k - 1)) as nat)
    }
}

/// The value of the image of a polynomial under `x -> x^t`, for odd `t`,
/// at a point `x0` with `x0^len = -1` is the value of the polynomial at
/// `x0^t`, modulo `q`.
pub proof fn lemma_int_image_value(c: Seq<int>, t: int, x0: int, q: int, i: int)
    requires
        q >= 2,
        is_two_power(c.len() as int),
        is_root(x0, c.len() as int, q),
        t >= 1,
        t % 2 == 1,
        0 <= i <= c.len(),
    ensures
        eval(int_image(c, t, i), x0, c.len() as int) % q == eval_step(c, x0, t, i) % q,
    decreases i,
{
    let len: int = c.len() as int;
    let cur: Seq<int> = int_image(c, t, i);
    if i == 0 {
        lemma_eval_zero(int_image(c, t, 0), x0, len);
    } else {
        let before: Seq<int> = int_image(c, t, i - 1);
        lemma_int_image_value(c, t, x0, q, i - 1);
        let j: int = i - 1;
        let x: int = j * t;
        lemma_mul_nonnegative(j, t);
        let e: int = x % (2 * len);
        lemma_mod_bound(x, 2 * len);
        let k: int = if e < len {
            e
        } else {
            e - len
        };
        let co: int = c[i - 1];
        let v: int = if e < len {
            co
        } else {
            -co
        };
        lemma_mod_mod(x, len, 2);
        lemma_mul_is_commutative(len, 2);
        if e < len {
            lemma_small_mod(e as nat, len as nat);
        } else {
            lemma_fundamental_div_mod_converse(e, len, 1, e - len);
        }
        assert(x % len == k);
        assert forall|j2: int| 0 <= j2 < j implies #[trigger] ((j2 * t) % len) != k by {
            let d: int = j - j2;
            lemma_odd_multiple(len, t, d);
            assert(d * t == j * t - j2 * t) by (nonlinear_arith)
                requires
                    d == j - j2,
            ;
            lemma_sub_mod_noop(j * t, j2 * t, len);
            if (j2 * t) % len == k {
                lemma_small_mod(0, len as nat);
                assert(false);
            }
        }
        lemma_int_untouched(c, len, t, k, j);
        assert(before[k] == 0);
        assert(cur =~= before.update(k, v));
        lemma_eval_update(before, k, v, x0, len);
        let pk: int = pow(x0, k as nat);
        let pe: int = pow(x0, e as nat);
        let px: int = pow(x0, x as nat);
        lemma_pow_period(x0, len, q, x);
        assert(px % q == pe % q);
        if e < len {
            lemma_mul_congruent(v, co, pk, px, q);
        } else {
            // x0^e = x0^k * x0^len = -x0^k
            lemma_pow_adds(x0, k as nat, len as nat);
            assert(k as nat + len as nat == e as nat);
            lemma_small_mod((q - 1) as nat, q as nat);
            lemma_mul_congruent(pk, pk, pow(x0, len as nat), q - 1, q);
            assert(pk * (q - 1) == q * pk + (-pk)) by (nonlinear_arith);
            lemma_mod_multiples_vanish(pk, -pk, q);
            assert(pe % q == (-pk) % q);
            lemma_mul_congruent(co, co, px, -pk, q);
            assert(co * (-pk) == v * pk) by (nonlinear_arith)
                requires
                    v == -co,
            ;
        }
        assert((v * pk) % q == (co * px) % q);
        assert((t * (i - 1)) as nat == x as nat) by (nonlinear_arith)
            requires
                x == j * t,
                j == i - 1,
                x >= 0,
        ;
        assert((v - before[k]) * pk == v * pk);
        lemma_add_congruent(eval(before, x0, len), eval_step(c, x0, t, i - 1), v * pk, co * px, q);
    }
}

/// The value with steps of `t` is the value at the `t`-th power of the
/// point.
pub proof fn lemma_eval_step(c: Seq<int>, x: int, t: int, k: int)
    requires
        t >= 0,
        k >= 0,
    ensures
        eval_step(c, x, t, k) == eval(c, pow(x, t as nat), k),
    decreases k,
{
    if k > 0 {
        lemma_eval_step(c, x, t, k - 1);
        lemma_mul_nonnegative(t, k - 1);
        lemma_pow_multiplies(x, t as nat, (k - 1) as nat);
        assert((t as nat) * ((k - 1) as nat) == (t * (k - 1)) as nat);
    }
}

/// Values at congruent points are congruent.
pub proof fn lemma_eval_point_congruent(c: Seq<int>, x: int, y: int, q: int, k: int)
    requires
        q > 0,
        k >= 0,
        x % q == y % q,
    ensures
        eval(c, x, k) % q == eval(c, y, k) % q,
    decreases k,
{
    if k > 0 {
        lemma_eval_point_congruent(c, x, y, q, k - 1);
        let e: nat = (k - 1) as nat;
        lemma_pow_mod_noop(x, e, q);
        lemma_pow_mod_noop(y, e, q);
        lemma_mul_congruent(c[k - 1], c[k - 1], pow(x, e), pow(y, e), q);
        lemma_add_congruent(
            eval(c, x, k - 1),
            eval(c, y, k - 1),
            c[k - 1] * pow(x, e),
            c[k - 1] * pow(y, e),
            q,
        );
    }
}

/// The digit polynomials of a decomposition: row `k` of the digits, of
/// `len` coefficients, as a polynomial with integer coefficients.
pub open spec fn digit_polys(digits_raw: Seq<u64>, len: int, dim: int) -> Seq<Seq<int>> {
    Seq::new(dim as nat, |k: int| Seq::new(len as nat, |j: int| digits_raw[k * len + j] as int))
}

/// The key `w`, a `2 x dim` matrix, switches to the key whose transform is
/// `s` from its image under `x -> x^t` up to the noise `e`: under `s`,
/// column `k` decrypts, at every position, to minus the digit weight
/// `2^(bits k)` times the word of `s` at the image of the position, plus
/// the value there of the polynomial `e[k]`, whose coefficients are at most
/// `bound` in absolute value.
pub open spec fn is_noisy_expansion_key(
    params: &Params,
    w: Seq<u64>,
    dim: int,
    s: Seq<u64>,
    t: int,
    e: Seq<Seq<int>>,
    bound: int,
) -> bool {
    &&& e.len() == dim
    &&& forall|k: int|
        0 <= k < dim ==> (#[trigger] e[k]).len() == params.poly_len && bounded(e[k], bound)
    &&& forall|k: int, n: int, z: int|
        0 <= k < dim && 0 <= n < params.crt_count && 0 <= z < params.poly_len
            ==> #[trigger] column_phase(
            params,
            w,
            dim,
            k,
            s[n * params.poly_len + z] as int,
            n,
            z,
        ) % params.q(n) == (-(pow2((bits_per(params, dim) * k) as nat) as int) * (s[n
            * params.poly_len + slot_image(params.poly_len as int, t, z)] as int) + eval(
            e[k],
            pow(params.roots@[n] as int, (2 * z + 1) as nat),
            params.poly_len as int,
        )) % params.q(n)
}

/// With a key that is valid up to noise, the part of an expanded
/// ciphertext that comes from the key decrypts to minus the key word at
/// the image position times what the digits recompose to, plus the value
/// of the sum of the products of the noise and the digit polynomials.
proof fn lemma_noisy_key_product(
    params: &Params,
    w: Seq<u64>,
    dim: int,
    digits_raw: Seq<u64>,
    s: Seq<u64>,
    t: int,
    e: Seq<Seq<int>>,
    bound: int,
    n: int,
    z: int,
    k: int,
)
    requires
        params.wf(),
        0 <= k <= dim,
        0 <= n < params.crt_count,
        0 <= z < params.poly_len,
        digits_raw.len() == dim * params.poly_len,
        is_noisy_expansion_key(params, w, dim, s, t, e, bound),
    ensures
        phase_product(
            params,
            w,
            dim,
            to_ntt_data(params, digits_raw),
            1,
            0,
            s[n * params.poly_len + z] as int,
            n,
            z,
            k,
        ) % params.q(n) == (-(s[n * params.poly_len + slot_image(params.poly_len as int, t, z)]
            as int) * digit_transform_sum(
            digits_raw,
            0,
            params.poly_len as int,
            params.poly_len as int,
            params.roots@[n] as int,
            2 * z + 1,
            bits_per(params, dim),
            k,
        ) + eval(
            total(e, digit_polys(digits_raw, params.poly_len as int, dim), params.poly_len as int, k),
            pow(params.roots@[n] as int, (2 * z + 1) as nat),
            params.poly_len as int,
        )) % params.q(n),
    decreases k,
{
    let len: int = params.poly_len as int;
    let q: int = params.q(n);
    let psi: int = params.roots@[n] as int;
    let x0: int = pow(psi, (2 * z + 1) as nat);
    let bits: int = bits_per(params, dim);
    let sv: int = s[n * len + z] as int;
    let sigma: int = s[n * len + slot_image(len, t, z)] as int;
    let digits: Seq<u64> = to_ntt_data(params, digits_raw);
    let dig: Seq<Seq<int>> = digit_polys(digits_raw, len, dim);
    assert(params.residue_wf(0));
    assert(params.residue_wf(n));
    lemma_point_is_root(psi, len, q, z);
    if k > 0 {
        lemma_noisy_key_product(params, w, dim, digits_raw, s, t, e, bound, n, z, k - 1);
        let j: int = k - 1;
        let weight: int = pow2((bits * j) as nat) as int;
        let ph: int = column_phase(params, w, dim, j, sv, n, z);
        let ej: Seq<int> = e[j];
        let dj: Seq<int> = dig[j];
        assert(ej.len() == len && dj.len() == len);
        let ev: int = eval(ej, x0, len);
        let dval: int = eval(dj, x0, len);
        assert(ph % q == (-weight * sigma + ev) % q);
        // the word of the digits is the transform of the digit polynomial
        lemma_ntt_index(params, dim, 1, j, 0, n, z);
        let idx: int = ntt_index(params, 1, j, 0, n, z);
        assert(j * 1 + 0 == j);
        let sum: int = power_sum(digits_raw, j * len, psi, 0, 2 * z + 1, len);
        lemma_mod_bound(sum, q);
        assert(digits.len() == dim * 1 * params.num_words()) by (nonlinear_arith)
            requires
                digits.len() == digits_raw.len() * params.crt_count,
                digits_raw.len() == dim * len,
                params.num_words() == params.crt_count * len,
        ;
        assert(digits[idx] == to_ntt_word(params, digits_raw, idx));
        assert(digits[idx] as int == sum % q);
        let dv: int = digits[idx] as int;
        lemma_mod_twice(sum, q);
        // which is the value of the digit polynomial
        lemma_sum_repower(digits_raw, j * len, psi, 2 * z + 1, len);
        assert forall|i: int| 0 <= i < len implies (#[trigger] digits_raw[j * len + i] as int) % q
            == dj[i] % q by {}
        lemma_sum_is_eval(digits_raw, j * len, dj, x0, q, len);
        assert(sum % q == dval % q);
        let before_p: int = phase_product(params, w, dim, digits, 1, 0, sv, n, z, k - 1);
        let before_d: int = digit_transform_sum(
            digits_raw,
            0,
            len,
            len,
            psi,
            2 * z + 1,
            bits,
            k - 1,
        );
        assert(0 + j * len == j * len);
        // the noise of the column times the digit polynomial
        lemma_eval_conv(ej, dj, x0, q, len);
        let prod: Seq<int> = conv(ej, dj, len);
        let before: Seq<int> = total(e, dig, len, k - 1);
        let cur: Seq<int> = total(e, dig, len, k);
        assert forall|i: int| 0 <= i < len implies #[trigger] cur[i] == before[i] + 1 * prod[i] by {}
        lemma_eval_add_scaled(cur, before, prod, 1, x0, len);
        assert(1 * eval(prod, x0, len) == eval(prod, x0, len));
        // the signal of the column times the sum
        lemma_mul_congruent(-weight * sigma, -weight * sigma, dv, sum, q);
        lemma_mul_congruent(ev, ev, dv, dval, q);
        lemma_mul_congruent(ph, -weight * sigma + ev, dv, dv, q);
        assert((-weight * sigma + ev) * dv == (-weight * sigma) * dv + ev * dv)
            by (nonlinear_arith);
        lemma_add_congruent((-weight * sigma) * dv, (-weight * sigma) * sum, ev * dv, ev * dval, q);
        lemma_add_congruent(
            (-weight * sigma) * sum,
            (-weight * sigma) * sum,
            ev * dval,
            eval(prod, x0, len),
            q,
        );
        assert((ph * dv) % q == ((-weight * sigma) * sum + eval(prod, x0, len)) % q);
        lemma_add_congruent(
            before_p,
            -sigma * before_d + eval(before, x0, len),
            ph * dv,
            (-weight * sigma) * sum + eval(prod, x0, len),
            q,
        );
        assert(-sigma * before_d + (-weight * sigma) * sum == -sigma * (before_d + weight * sum))
            by (nonlinear_arith);
    } else {
        assert(-sigma * 0 == 0);
        lemma_eval_zero(total(e, dig, len, 0), x0, len);
    }
}

/// The noise that one expansion adds: the sum of the products in the ring
/// of the noise polynomials of the key and the digit polynomials of the
/// image of the first row of the ciphertext.
pub open spec fn step_noise(
    params: &Params,
    ct: Seq<u64>,
    dim: int,
    t: int,
    e: Seq<Seq<int>>,
) -> Seq<int> {
    total(
        e,
        digit_polys(
            gadget_data(params, automorph_data(params, from_ntt_data(params, ct), t), dim, 1, 1),
            params.poly_len as int,
            dim,
        ),
        params.poly_len as int,
        dim,
    )
}

/// One expansion under noise adds the image and the noise of the step.
/// With a key that is valid for `x -> x^t` up to noise of at most `bound`,
/// `t` odd: at every position the expanded ciphertext decrypts to what the
/// ciphertext decrypts to there, plus what it decrypts to at the image of
/// the position, plus the value of the noise of the step, whose
/// coefficients are at most `dim * poly_len * bound * 2^bits` in absolute
/// value.
pub proof fn lemma_noisy_expansion_adds_image(
    params: &Params,
    ct: Seq<u64>,
    w: Seq<u64>,
    dim: int,
    t: int,
    s: Seq<u64>,
    e: Seq<Seq<int>>,
    bound: int,
)
    requires
        params.wf(),
        ct.len() == 2 * params.num_words(),
        dim >= 1,
        t >= 1,
        t % 2 == 1,
        bound >= 0,
        is_noisy_expansion_key(params, w, dim, s, t, e, bound),
    ensures
        step_noise(params, ct, dim, t, e).len() == params.poly_len,
        bounded(
            step_noise(params, ct, dim, t, e),
            dim * (params.poly_len * (bound * pow2(bits_per(params, dim) as nat))),
        ),
        forall|n: int, z: int|
            0 <= n < params.crt_count && 0 <= z < params.poly_len ==> #[trigger] column_phase(
                params,
                expand_ct(params, ct, w, dim, t),
                1,
                0,
                s[n * params.poly_len + z] as int,
                n,
                z,
            ) % params.q(n) == (column_phase(
                params,
                ct,
                1,
                0,
                s[n * params.poly_len + z] as int,
                n,
                z,
            ) + column_phase(
                params,
                ct,
                1,
                0,
                s[n * params.poly_len + slot_image(params.poly_len as int, t, z)] as int,
                n,
                slot_image(params.poly_len as int, t, z),
            ) + eval(
                step_noise(params, ct, dim, t, e),
                pow(params.roots@[n] as int, (2 * z + 1) as nat),
                params.poly_len as int,
            )) % params.q(n),
{
    let len: int = params.poly_len as int;
    let bits: int = bits_per(params, dim);
    let digits_raw: Seq<u64> = gadget_data(
        params,
        automorph_data(params, from_ntt_data(params, ct), t),
        dim,
        1,
        1,
    );
    let dig: Seq<Seq<int>> = digit_polys(digits_raw, len, dim);
    let noise: Seq<int> = step_noise(params, ct, dim, t, e);
    let base: int = pow2(bits as nat) as int;
    lemma_expansion_phase_parts(params, ct, w, dim, t, s, 0, 0);
    assert forall|i: int| 0 <= i < dim implies (#[trigger] dig[i]).len() == len && bounded(
        dig[i],
        base,
    ) by {
        assert forall|j: int| 0 <= j < dig[i].len() implies -base <= #[trigger] dig[i][j]
            <= base by {
            assert((digits_raw[i * len + j] as int) < base);
        }
    }
    assert(one_hot_up_to(e, len, dim, 0, bound)) by {
        assert forall|k: int, j: int| 0 <= k < e.len() && 0 <= j < len implies {
            &&& (#[trigger] e[k]).len() == len
            &&& -bound <= #[trigger] e[k][j] - (if k == dim && j == 0 {
                0int
            } else {
                0int
            }) <= bound
        } by {
            assert(bounded(e[k], bound));
        }
    }
    assert forall|z: int| 0 <= z < noise.len() implies -(dim * (len * (bound * base)))
        <= #[trigger] noise[z] <= dim * (len * (bound * base)) by {
        lemma_total_bounded(e, dig, len, dim, 0, bound, base, dim, z);
    }
    assert forall|n: int, z: int|
        0 <= n < params.crt_count && 0 <= z < params.poly_len implies #[trigger] column_phase(
        params,
        expand_ct(params, ct, w, dim, t),
        1,
        0,
        s[n * params.poly_len + z] as int,
        n,
        z,
    ) % params.q(n) == (column_phase(params, ct, 1, 0, s[n * params.poly_len + z] as int, n, z)
        + column_phase(
        params,
        ct,
        1,
        0,
        s[n * params.poly_len + slot_image(params.poly_len as int, t, z)] as int,
        n,
        slot_image(params.poly_len as int, t, z),
    ) + eval(
        step_noise(params, ct, dim, t, e),
        pow(params.roots@[n] as int, (2 * z + 1) as nat),
        params.poly_len as int,
    )) % params.q(n) by {
        let q: int = params.q(n);
        let zi: int = slot_image(len, t, z);
        let sv: int = s[n * len + z] as int;
        let sigma: int = s[n * len + zi] as int;
        let x0: int = pow(params.roots@[n] as int, (2 * z + 1) as nat);
        assert(params.residue_wf(n));
        lemma_expansion_phase_parts(params, ct, w, dim, t, s, n, z);
        lemma_noisy_key_product(params, w, dim, digits_raw, s, t, e, bound, n, z, dim);
        let c0: int = ct[ntt_index(params, 1, 0, 0, n, zi)] as int;
        let c1: int = ct[ntt_index(params, 1, 1, 0, n, zi)] as int;
        let here: int = column_phase(params, ct, 1, 0, sv, n, z);
        let there: int = column_phase(params, ct, 1, 0, sigma, n, zi);
        let pp: int = phase_product(
            params,
            w,
            dim,
            to_ntt_data(params, digits_raw),
            1,
            0,
            sv,
            n,
            z,
            dim,
        );
        let dts: int = digit_transform_sum(
            digits_raw,
            0,
            len,
            len,
            params.roots@[n] as int,
            2 * z + 1,
            bits,
            dim,
        );
        let nv: int = eval(noise, x0, len);
        assert(pp % q == (-sigma * dts + nv) % q);
        lemma_mul_congruent(-sigma, -sigma, dts, c0, q);
        lemma_add_congruent(-sigma * dts, -sigma * c0, nv, nv, q);
        lemma_add_congruent(here + c1, here + c1, pp, -sigma * c0 + nv, q);
        assert(here + c1 + pp == (here + c1) + pp);
        assert((here + c1) + (-sigma * c0 + nv) == here + there + nv) by (nonlinear_arith)
            requires
                there == c1 - sigma * c0,
        ;
    }
}

/// Under the key whose transform is `s`, the ciphertext `ct` decrypts, at
/// every position of the transform, to the value there of the level
/// monomial of position `k` at level `l` plus the value of the polynomial
/// `nu`, whose coefficients are at most `bound` in absolute value.
pub open spec fn is_level_noise(
    params: &Params,
    ct: Seq<u64>,
    s: Seq<u64>,
    c: int,
    target: int,
    l: int,
    k: int,
    nu: Seq<int>,
    bound: int,
) -> bool {
    &&& nu.len() == params.poly_len
    &&& bounded(nu, bound)
    &&& forall|n: int, z: int|
        0 <= n < params.crt_count && 0 <= z < params.poly_len ==> #[trigger] column_phase(
            params,
            ct,
            1,
            0,
            s[n * params.poly_len + z] as int,
            n,
            z,
        ) % params.q(n) == (level_coefficient(c, target, l, k) * pow(
            pow(params.roots@[n] as int, (2 * z + 1) as nat),
            level_exponent(params.poly_len as int, target, k) as nat,
        ) + eval(
            nu,
            pow(params.roots@[n] as int, (2 * z + 1) as nat),
            params.poly_len as int,
        )) % params.q(n)
}

/// The ciphertext `ct` is at level `l` for position `k` up to noise: it
/// decrypts to the level monomial plus a polynomial whose coefficients are
/// at most `bound` in absolute value.
pub open spec fn near_level(
    params: &Params,
    ct: Seq<u64>,
    s: Seq<u64>,
    c: int,
    target: int,
    l: int,
    k: int,
    bound: int,
) -> bool {
    exists|nu: Seq<int>| #[trigger] is_level_noise(params, ct, s, c, target, l, k, nu, bound)
}

/// A ciphertext that is at a level up to some noise is at that level up
/// to any larger noise.
pub proof fn lemma_near_level_widens(
    params: &Params,
    ct: Seq<u64>,
    s: Seq<u64>,
    c: int,
    target: int,
    l: int,
    k: int,
    bound: int,
    wider: int,
)
    requires
        bound <= wider,
        near_level(params, ct, s, c, target, l, k, bound),
    ensures
        near_level(params, ct, s, c, target, l, k, wider),
{
    let nu: Seq<int> = choose|nu: Seq<int>|
        #[trigger] is_level_noise(params, ct, s, c, target, l, k, nu, bound);
    assert forall|z: int| 0 <= z < nu.len() implies -wider <= #[trigger] nu[z] <= wider by {
        assert(-bound <= nu[z] <= bound);
    }
    assert(is_level_noise(params, ct, s, c, target, l, k, nu, wider));
}

/// Expanding under noise raises the level. With a key that is valid up to
/// a noise of at most `key_bound`, expanding a ciphertext at level `r` for
/// position `k` up to a noise of at most `bound` gives a ciphertext at
/// level `r + 1` up to a noise of at most
/// `2 * bound + dim * poly_len * key_bound * 2^bits`.
pub proof fn lemma_noisy_expand_raises_level(
    params: &Params,
    ct: Seq<u64>,
    w: Seq<u64>,
    dim: int,
    s: Seq<u64>,
    c: int,
    target: int,
    r: int,
    k: int,
    e: Seq<Seq<int>>,
    key_bound: int,
    bound: int,
)
    requires
        params.wf(),
        ct.len() == 2 * params.num_words(),
        dim >= 1,
        r >= 0,
        2 * pow2(r as nat) <= params.poly_len,
        key_bound >= 0,
        bound >= 0,
        is_noisy_expansion_key(
            params,
            w,
            dim,
            s,
            (params.poly_len as int) / (pow2(r as nat) as int) + 1,
            e,
            key_bound,
        ),
        near_level(params, ct, s, c, target, r, k, bound),
    ensures
        near_level(
            params,
            expand_ct(params, ct, w, dim, (params.poly_len as int) / (pow2(r as nat) as int) + 1),
            s,
            c,
            target,
            r + 1,
            k,
            2 * bound + dim * (params.poly_len * (key_bound * pow2(bits_per(params, dim) as nat))),
        ),
{
    let len: int = params.poly_len as int;
    let p: int = pow2(r as nat) as int;
    let t: int = len / p + 1;
    let ex: int = level_exponent(len, target, k);
    let old_c: int = level_coefficient(c, target, r, k);
    let new_c: int = level_coefficient(c, target, r + 1, k);
    let new: Seq<u64> = expand_ct(params, ct, w, dim, t);
    let step: int = dim * (len * (key_bound * pow2(bits_per(params, dim) as nat)));
    lemma_signal_step(params, 0, 0, c, target, r, k);
    lemma_noisy_expansion_adds_image(params, ct, w, dim, t, s, e, key_bound);
    let nu: Seq<int> = choose|nu: Seq<int>|
        #[trigger] is_level_noise(params, ct, s, c, target, r, k, nu, bound);
    let img: Seq<int> = int_image(nu, t, len);
    let ns: Seq<int> = step_noise(params, ct, dim, t, e);
    let mid: Seq<int> = Seq::new(len as nat, |i: int| nu[i] + 1 * img[i]);
    let nu2: Seq<int> = Seq::new(len as nat, |i: int| mid[i] + 1 * ns[i]);
    assert forall|i: int| 0 <= i < nu2.len() implies -(2 * bound + step) <= #[trigger] nu2[i] <= 2
        * bound + step by {
        lemma_int_image_bounded(nu, t, i, len, bound);
        assert(-bound <= nu[i] <= bound);
        assert(-step <= ns[i] <= step);
    }
    assert forall|n: int, z: int|
        0 <= n < params.crt_count && 0 <= z < params.poly_len implies #[trigger] column_phase(
        params,
        new,
        1,
        0,
        s[n * params.poly_len + z] as int,
        n,
        z,
    ) % params.q(n) == (new_c * pow(pow(params.roots@[n] as int, (2 * z + 1) as nat), ex as nat)
        + eval(nu2, pow(params.roots@[n] as int, (2 * z + 1) as nat), params.poly_len as int))
        % params.q(n) by {
        let q: int = params.q(n);
        let psi: int = params.roots@[n] as int;
        assert(params.residue_wf(0));
        assert(params.residue_wf(n));
        let x0: int = pow(psi, (2 * z + 1) as nat);
        let zi: int = slot_image(len, t, z);
        let xi: int = pow(psi, (2 * zi + 1) as nat);
        lemma_slot_image(len, t, z);
        lemma_point_is_root(psi, len, q, z);
        lemma_signal_step(params, n, z, c, target, r, k);
        let sv: int = s[n * len + z] as int;
        let sigma: int = s[n * len + zi] as int;
        let here: int = column_phase(params, ct, 1, 0, sv, n, z);
        let there: int = column_phase(params, ct, 1, 0, sigma, n, zi);
        let phase_new: int = column_phase(params, new, 1, 0, sv, n, z);
        let pe: int = pow(x0, ex as nat);
        let pxi: int = pow(xi, ex as nat);
        let ev: int = eval(nu, x0, len);
        let evi: int = eval(nu, xi, len);
        let eimg: int = eval(img, x0, len);
        let nv: int = eval(ns, x0, len);
        assert(phase_new % q == (here + there + nv) % q);
        assert(here % q == (old_c * pe + ev) % q);
        assert(there % q == (old_c * pxi + evi) % q);
        // the noise at the image of the position is the image of the noise
        lemma_image_point(psi, len, q, t, z);
        lemma_eval_point_congruent(nu, xi, pow(x0, t as nat), q, len);
        lemma_eval_step(nu, x0, t, len);
        lemma_int_image_value(nu, t, x0, q, len);
        assert(evi % q == eimg % q);
        // the noise polynomials add up
        lemma_eval_add_scaled(mid, nu, img, 1, x0, len);
        lemma_eval_add_scaled(nu2, mid, ns, 1, x0, len);
        assert(eval(nu2, x0, len) == ev + eimg + nv) by (nonlinear_arith)
            requires
                eval(mid, x0, len) == ev + 1 * eimg,
                eval(nu2, x0, len) == eval(mid, x0, len) + 1 * nv,
        ;
        lemma_add_congruent(old_c * pxi, old_c * pxi, evi, eimg, q);
        lemma_add_congruent(here, old_c * pe + ev, there, old_c * pxi + eimg, q);
        lemma_add_congruent(here + there, (old_c * pe + ev) + (old_c * pxi + eimg), nv, nv, q);
        lemma_add_congruent(old_c * pe + old_c * pxi, new_c * pe, ev + eimg + nv, ev + eimg + nv, q);
        assert((old_c * pe + ev) + (old_c * pxi + eimg) + nv == (old_c * pe + old_c * pxi) + (ev
            + eimg + nv));
    }
    assert(is_level_noise(params, new, s, c, target, r + 1, k, nu2, 2 * bound + step));
}

/// Spreading under noise keeps the level: multiplying a ciphertext at level
/// `r` for position `j` up to noise by `x^(-2^r)` gives a ciphertext at
/// level `r` for position `2^r + j` up to the same noise.
pub proof fn lemma_noisy_spread_keeps_level(
    params: &Params,
    ct: Seq<u64>,
    neg1: Seq<u64>,
    s: Seq<u64>,
    c: int,
    target: int,
    r: int,
    j: int,
    bound: int,
)
    requires
        params.wf(),
        ct.len() == 2 * params.num_words(),
        r >= 0,
        2 * pow2(r as nat) <= params.poly_len,
        is_shift(params, neg1, r),
        near_level(params, ct, s, c, target, r, j, bound),
    ensures
        scalar_multiply_data(params, neg1, ct).len() == ct.len(),
        near_level(
            params,
            scalar_multiply_data(params, neg1, ct),
            s,
            c,
            target,
            r,
            pow2(r as nat) + j,
            bound,
        ),
{
    let len: int = params.poly_len as int;
    let words: int = params.num_words();
    let p: int = pow2(r as nat) as int;
    let new: Seq<u64> = scalar_multiply_data(params, neg1, ct);
    let ex: int = level_exponent(len, target, j);
    let ex2: int = level_exponent(len, target, p + j);
    let kc: int = level_coefficient(c, target, r, j);
    lemma_pow2_pos(r as nat);
    lemma_signal_spread(params, 0, 0, c, target, r, j);
    assert(2 * 1 * words == 2 * words) by (nonlinear_arith);
    let nu: Seq<int> = choose|nu: Seq<int>|
        #[trigger] is_level_noise(params, ct, s, c, target, r, j, nu, bound);
    let nu2: Seq<int> = shift(nu, 2 * len - p);
    lemma_shift_bounded(nu, 2 * len - p, bound);
    assert forall|n: int, z: int|
        0 <= n < params.crt_count && 0 <= z < params.poly_len implies #[trigger] column_phase(
        params,
        new,
        1,
        0,
        s[n * params.poly_len + z] as int,
        n,
        z,
    ) % params.q(n) == (kc * pow(pow(params.roots@[n] as int, (2 * z + 1) as nat), ex2 as nat)
        + eval(nu2, pow(params.roots@[n] as int, (2 * z + 1) as nat), params.poly_len as int))
        % params.q(n) by {
        let q: int = params.q(n);
        let psi: int = params.roots@[n] as int;
        let sv: int = s[n * len + z] as int;
        assert(params.residue_wf(0));
        assert(params.residue_wf(n));
        let x0: int = pow(psi, (2 * z + 1) as nat);
        lemma_point_is_root(psi, len, q, z);
        lemma_signal_spread(params, n, z, c, target, r, j);
        lemma_scaled_phase(params, ct, neg1, sv, n, z);
        let mu: int = neg1[n * len + z] as int;
        let here: int = column_phase(params, ct, 1, 0, sv, n, z);
        let up: int = pow(x0, (2 * len - p) as nat);
        let pe: int = pow(x0, ex as nat);
        let pe2: int = pow(x0, ex2 as nat);
        let ev: int = eval(nu, x0, len);
        assert(mu % q == up % q);
        assert(here % q == (kc * pe + ev) % q);
        lemma_mul_congruent(mu, up, here, kc * pe + ev, q);
        lemma_eval_shift(nu, x0, q, 2 * len - p);
        assert(up * (kc * pe + ev) == up * (kc * pe) + up * ev) by (nonlinear_arith);
        lemma_add_congruent(up * (kc * pe), kc * pe2, up * ev, eval(nu2, x0, len), q);
    }
    assert(level_coefficient(c, target, r, p + j) == kc);
    assert(is_level_noise(params, new, s, c, target, r, p + j, nu2, bound));
}

/// The bound of the noise at level `l`: `b0` at level 0, and from one
/// level to the next twice the bound and `step` more.
pub open spec fn noise_at(b0: int, step: int, l: int) -> int
    decreases l,
{
    if l <= 0 {
        b0
    } else {
        2 * noise_at(b0, step, l - 1) + step
    }
}

/// The bound of the noise at a level is not negative.
pub proof fn lemma_noise_at(b0: int, step: int, l: int)
    requires
        b0 >= 0,
        step >= 0,
    ensures
        noise_at(b0, step, l) >= 0,
        l >= 0 ==> noise_at(b0, step, l + 1) == 2 * noise_at(b0, step, l) + step,
    decreases l,
{
    if l > 0 {
        lemma_noise_at(b0, step, l - 1);
    }
}

/// The bound of the noise at level `l` in closed form: `2^l` times `b0`
/// and `2^l - 1` times `step`.
pub proof fn lemma_noise_at_closed(b0: int, step: int, l: int)
    requires
        l >= 0,
    ensures
        noise_at(b0, step, l) == pow2(l as nat) * b0 + (pow2(l as nat) - 1) * step,
    decreases l,
{
    if l > 0 {
        lemma_noise_at_closed(b0, step, l - 1);
        lemma_pow2_unfold(l as nat);
        let p: int = pow2((l - 1) as nat) as int;
        let full: int = pow2(l as nat) as int;
        assert(full == 2 * p);
        assert(noise_at(b0, step, l) == 2 * (p * b0 + (p - 1) * step) + step);
        assert(2 * (p * b0 + (p - 1) * step) + step == full * b0 + (full - 1) * step)
            by (nonlinear_arith)
            requires
                full == 2 * p,
        ;
    } else {
        lemma2_to64();
        assert(1 * b0 + (1 - 1) * step == b0) by (nonlinear_arith);
    }
}

/// `step` covers the noise that one expansion adds with either key, where
/// the noise of the keys is at most `key_bound`: with `dim` digits of
/// `bits` bits each, that is `dim * poly_len * key_bound * 2^bits`.
pub open spec fn step_covers(params: &Params, key_bound: int, step: int) -> bool {
    &&& step >= 0
    &&& (params.t_exp_left as int) * (params.poly_len * (key_bound * pow2(
        bits_per(params, params.t_exp_left as int) as nat,
    ))) <= step
    &&& (params.t_exp_right as int) * (params.poly_len * (key_bound * pow2(
        bits_per(params, params.t_exp_right as int) as nat,
    ))) <= step
}

/// The key `w` is valid for `x -> x^t` up to a noise of at most `bound`.
pub open spec fn has_noisy_key(
    params: &Params,
    w: Seq<u64>,
    dim: int,
    s: Seq<u64>,
    t: int,
    bound: int,
) -> bool {
    exists|e: Seq<Seq<int>>| #[trigger] is_noisy_expansion_key(params, w, dim, s, t, e, bound)
}

/// The keys of the first `g` rounds are valid up to a noise of at most
/// `bound` for the key whose transform is `s`: the left and right
/// expansion keys of round `r` switch from the image under
/// `x -> x^(len / 2^r + 1)`, and `v_neg1[r]` is `x^(-2^r)`.
pub open spec fn keys_near(
    params: &Params,
    v_w_left: Seq<PolyMatrixNTT>,
    v_w_right: Seq<PolyMatrixNTT>,
    v_neg1: Seq<PolyMatrixNTT>,
    s: Seq<u64>,
    g: int,
    bound: int,
) -> bool {
    forall|r: int|
        0 <= r < g ==> {
            &&& has_noisy_key(
                params,
                (#[trigger] v_w_left[r]).data@,
                params.t_exp_left as int,
                s,
                (params.poly_len as int) / (pow2(r as nat) as int) + 1,
                bound,
            )
            &&& has_noisy_key(
                params,
                v_w_right[r].data@,
                params.t_exp_right as int,
                s,
                (params.poly_len as int) / (pow2(r as nat) as int) + 1,
                bound,
            )
            &&& is_shift(params, v_neg1[r].data@, r)
        }
}

/// The ciphertext `ct` is a ciphertext at the given level for position
/// `k` up to the noise of the level, or, without a level, the ciphertext
/// `orig` that was there before.
pub open spec fn holds_near(
    params: &Params,
    ct: Seq<u64>,
    orig: Seq<u64>,
    s: Seq<u64>,
    c: int,
    target: int,
    level: Option<int>,
    k: int,
    b0: int,
    step: int,
) -> bool {
    match level {
        Some(l) => ct.len() == 2 * params.num_words() && near_level(
            params,
            ct,
            s,
            c,
            target,
            l,
            k,
            noise_at(b0, step, l),
        ),
        None => ct == orig,
    }
}

/// What holds of the vector while round `r` is at position `i`: every
/// position holds its level up to noise, or what it held when the round
/// began.
pub open spec fn round_near(
    params: &Params,
    cts: Seq<Seq<u64>>,
    begin: Seq<Seq<u64>>,
    s: Seq<u64>,
    c: int,
    target: int,
    stopround: int,
    r: int,
    i: int,
    b0: int,
    step: int,
) -> bool {
    &&& cts.len() == begin.len()
    &&& forall|k: int|
        0 <= k < cts.len() ==> holds_near(
            params,
            #[trigger] cts[k],
            begin[k],
            s,
            c,
            target,
            level_during(stopround, r, i, k),
            k,
            b0,
            step,
        )
}

/// Under noise, round `r` raises the level of the positions that the stop
/// rule lets it expand, position by position, and leaves the others alone.
pub proof fn lemma_noisy_round_raises_level(
    params: &Params,
    begin: Seq<Seq<u64>>,
    r: int,
    stopround: int,
    max_bits_to_gen_right: int,
    w_left: Seq<u64>,
    w_right: Seq<u64>,
    neg1: Seq<u64>,
    s: Seq<u64>,
    c: int,
    target: int,
    i: int,
    e_left: Seq<Seq<int>>,
    e_right: Seq<Seq<int>>,
    key_bound: int,
    b0: int,
    step: int,
)
    requires
        params.wf(),
        r >= 0,
        2 * pow2(r as nat) <= params.poly_len,
        2 * pow2(r as nat) <= begin.len(),
        0 <= i <= 2 * pow2(r as nat),
        key_bound >= 0,
        b0 >= 0,
        step_covers(params, key_bound, step),
        is_noisy_expansion_key(
            params,
            w_left,
            params.t_exp_left as int,
            s,
            (params.poly_len as int) / (pow2(r as nat) as int) + 1,
            e_left,
            key_bound,
        ),
        is_noisy_expansion_key(
            params,
            w_right,
            params.t_exp_right as int,
            s,
            (params.poly_len as int) / (pow2(r as nat) as int) + 1,
            e_right,
            key_bound,
        ),
        is_shift(params, neg1, r),
        forall|x: int|
            0 <= x < i ==> (#[trigger] skipped(stopround, max_bits_to_gen_right, r, x) <==> frozen(
                stopround,
                r,
                x,
            )),
        forall|k: int|
            0 <= k < pow2(r as nat) && !frozen(stopround, r, k) ==> (#[trigger] begin[k]).len() == 2
                * params.num_words() && near_level(
                params,
                begin[k],
                s,
                c,
                target,
                r,
                k,
                noise_at(b0, step, r),
            ),
    ensures
        round_near(
            params,
            expansion_round(
                params,
                begin,
                r,
                stopround,
                max_bits_to_gen_right,
                w_left,
                w_right,
                neg1,
                i,
            ),
            begin,
            s,
            c,
            target,
            stopround,
            r,
            i,
            b0,
            step,
        ),
    decreases i,
{
    let p: int = pow2(r as nat) as int;
    lemma_pow2_pos(r as nat);
    if i > 0 {
        lemma_noisy_round_raises_level(
            params,
            begin,
            r,
            stopround,
            max_bits_to_gen_right,
            w_left,
            w_right,
            neg1,
            s,
            c,
            target,
            i - 1,
            e_left,
            e_right,
            key_bound,
            b0,
            step,
        );
        let t: int = (params.poly_len as int) / p + 1;
        let x: int = i - 1;
        let prev: Seq<Seq<u64>> = expansion_round(
            params,
            begin,
            r,
            stopround,
            max_bits_to_gen_right,
            w_left,
            w_right,
            neg1,
            i - 1,
        );
        let next: Seq<Seq<u64>> = expansion_round(
            params,
            begin,
            r,
            stopround,
            max_bits_to_gen_right,
            w_left,
            w_right,
            neg1,
            i,
        );
        assert(skipped(stopround, max_bits_to_gen_right, r, x) <==> frozen(stopround, r, x));
        if r >= 1 {
            lemma_pow2_unfold(r as nat);
            assert(p % 2 == 0);
        } else {
            lemma2_to64();
            assert(p == 1);
        }
        if frozen(stopround, r, x) {
            assert(next == prev);
            assert forall|k: int| 0 <= k < next.len() implies holds_near(
                params,
                #[trigger] next[k],
                begin[k],
                s,
                c,
                target,
                level_during(stopround, r, i, k),
                k,
                b0,
                step,
            ) by {
                assert(holds_near(
                    params,
                    prev[k],
                    begin[k],
                    s,
                    c,
                    target,
                    level_during(stopround, r, i - 1, k),
                    k,
                    b0,
                    step,
                ));
                if k == p + x && x < p {
                    assert((p + x) % 2 == 1);
                }
            }
        } else {
            assert(next == expansion_step(params, prev, r, x, w_left, w_right, neg1));
            let spread: Seq<Seq<u64>> = if x < p {
                prev.update(p + x, scalar_multiply_data(params, neg1, prev[x]))
            } else {
                prev
            };
            assert(holds_near(
                params,
                prev[x],
                begin[x],
                s,
                c,
                target,
                level_during(stopround, r, i - 1, x),
                x,
                b0,
                step,
            ));
            assert(level_during(stopround, r, i - 1, x) == Some(r));
            if x < p {
                lemma_noisy_spread_keeps_level(
                    params,
                    prev[x],
                    neg1,
                    s,
                    c,
                    target,
                    r,
                    x,
                    noise_at(b0, step, r),
                );
            }
            let cur: Seq<u64> = spread[x];
            assert(cur == prev[x]);
            let key: Seq<u64> = if x % 2 == 0 {
                w_left
            } else {
                w_right
            };
            let dim: int = if x % 2 == 0 {
                params.t_exp_left as int
            } else {
                params.t_exp_right as int
            };
            let ekey: Seq<Seq<int>> = if x % 2 == 0 {
                e_left
            } else {
                e_right
            };
            let at_r: int = noise_at(b0, step, r);
            lemma_noise_at(b0, step, r);
            lemma_noisy_expand_raises_level(
                params,
                cur,
                key,
                dim,
                s,
                c,
                target,
                r,
                x,
                ekey,
                key_bound,
                at_r,
            );
            let grown: Seq<u64> = expand_ct(params, cur, key, dim, t);
            lemma_near_level_widens(
                params,
                grown,
                s,
                c,
                target,
                r + 1,
                x,
                2 * at_r + dim * (params.poly_len * (key_bound * pow2(
                    bits_per(params, dim) as nat,
                ))),
                noise_at(b0, step, r + 1),
            );
            assert(next == spread.update(x, grown));
            assert(grown.len() == cur.len());
            assert forall|k: int| 0 <= k < next.len() implies holds_near(
                params,
                #[trigger] next[k],
                begin[k],
                s,
                c,
                target,
                level_during(stopround, r, i, k),
                k,
                b0,
                step,
            ) by {
                assert(holds_near(
                    params,
                    prev[k],
                    begin[k],
                    s,
                    c,
                    target,
                    level_during(stopround, r, i - 1, k),
                    k,
                    b0,
                    step,
                ));
                if k == x {
                } else if x < p && k == p + x {
                    assert(next[k] == scalar_multiply_data(params, neg1, prev[x]));
                    if r >= 1 {
                        assert((p + x) % 2 == x % 2);
                    }
                } else {
                    assert(next[k] == prev[k]);
                }
            }
        }
    } else {
        assert forall|k: int| 0 <= k < begin.len() implies holds_near(
            params,
            #[trigger] begin[k],
            begin[k],
            s,
            c,
            target,
            level_during(stopround, r, 0, k),
            k,
            b0,
            step,
        ) by {}
    }
}

/// Expansion under noise. With keys that are valid up to a noise of at
/// most `key_bound`, where the stop rule skips only the odd positions after
/// the stop round and the ciphertext at position 0 decrypts to
/// `c * x^target` up to a noise of at most `b0`: `g` rounds bring every
/// position that they write to its level, up to the noise of the level,
/// and leave the others as they were.
pub proof fn lemma_noisy_expansion_levels(
    params: &Params,
    start: Seq<Seq<u64>>,
    g: int,
    stopround: int,
    max_bits_to_gen_right: int,
    v_w_left: Seq<PolyMatrixNTT>,
    v_w_right: Seq<PolyMatrixNTT>,
    v_neg1: Seq<PolyMatrixNTT>,
    s: Seq<u64>,
    c: int,
    target: int,
    key_bound: int,
    b0: int,
    step: int,
)
    requires
        params.wf(),
        g >= 0,
        key_bound >= 0,
        b0 >= 0,
        step_covers(params, key_bound, step),
        stopround >= 0,
        pow2(g as nat) <= params.poly_len,
        pow2(g as nat) <= start.len(),
        start[0].len() == 2 * params.num_words(),
        keys_near(params, v_w_left, v_w_right, v_neg1, s, g, key_bound),
        only_odd_skipped(stopround, max_bits_to_gen_right, g),
        near_level(params, start[0], s, c, target, 0, 0, b0),
    ensures
        ({
            let fin: Seq<Seq<u64>> = expansion(
                params,
                start,
                g,
                stopround,
                max_bits_to_gen_right,
                v_w_left,
                v_w_right,
                v_neg1,
            );
            &&& fin.len() == start.len()
            &&& forall|k: int|
                0 <= k < fin.len() ==> holds_near(
                    params,
                    #[trigger] fin[k],
                    start[k],
                    s,
                    c,
                    target,
                    level_after(stopround, g, k),
                    k,
                    b0,
                    step,
                )
        }),
    decreases g,
{
    lemma2_to64();
    if g > 0 {
        let r: int = g - 1;
        let p: int = pow2(r as nat) as int;
        lemma_pow2_unfold(g as nat);
        lemma_pow2_pos(r as nat);
        assert(pow2(g as nat) == 2 * p);
        assert(only_odd_skipped(stopround, max_bits_to_gen_right, r)) by {
            assert forall|r2: int, x: int| 0 <= r2 < r && 0 <= x < 2 * pow2(r2 as nat) implies (
            #[trigger] skipped(stopround, max_bits_to_gen_right, r2, x) <==> frozen(
                stopround,
                r2,
                x,
            )) by {
                assert(0 <= r2 < g);
            }
        }
        assert(keys_near(params, v_w_left, v_w_right, v_neg1, s, r, key_bound)) by {
            assert forall|r2: int| 0 <= r2 < r implies {
                &&& has_noisy_key(
                    params,
                    (#[trigger] v_w_left[r2]).data@,
                    params.t_exp_left as int,
                    s,
                    (params.poly_len as int) / (pow2(r2 as nat) as int) + 1,
                    key_bound,
                )
                &&& has_noisy_key(
                    params,
                    v_w_right[r2].data@,
                    params.t_exp_right as int,
                    s,
                    (params.poly_len as int) / (pow2(r2 as nat) as int) + 1,
                    key_bound,
                )
                &&& is_shift(params, v_neg1[r2].data@, r2)
            } by {
                assert(0 <= r2 < g);
            }
        }
        lemma_noisy_expansion_levels(
            params,
            start,
            r,
            stopround,
            max_bits_to_gen_right,
            v_w_left,
            v_w_right,
            v_neg1,
            s,
            c,
            target,
            key_bound,
            b0,
            step,
        );
        let prev: Seq<Seq<u64>> = expansion(
            params,
            start,
            r,
            stopround,
            max_bits_to_gen_right,
            v_w_left,
            v_w_right,
            v_neg1,
        );
        let wl: Seq<u64> = v_w_left[r].data@;
        let wr: Seq<u64> = v_w_right[r].data@;
        let ng: Seq<u64> = v_neg1[r].data@;
        let tr: int = (params.poly_len as int) / p + 1;
        assert(has_noisy_key(params, v_w_left[r].data@, params.t_exp_left as int, s, tr, key_bound));
        assert(has_noisy_key(
            params,
            v_w_right[r].data@,
            params.t_exp_right as int,
            s,
            tr,
            key_bound,
        ));
        let el: Seq<Seq<int>> = choose|e: Seq<Seq<int>>| #[trigger]
            is_noisy_expansion_key(params, wl, params.t_exp_left as int, s, tr, e, key_bound);
        let er: Seq<Seq<int>> = choose|e: Seq<Seq<int>>| #[trigger]
            is_noisy_expansion_key(params, wr, params.t_exp_right as int, s, tr, e, key_bound);
        // what the round needs of the positions that it reads
        assert forall|k: int| 0 <= k < p && !frozen(stopround, r, k) implies (#[trigger] prev[k]).len()
            == 2 * params.num_words() && near_level(
            params,
            prev[k],
            s,
            c,
            target,
            r,
            k,
            noise_at(b0, step, r),
        ) by {
            assert(holds_near(
                params,
                prev[k],
                start[k],
                s,
                c,
                target,
                level_after(stopround, r, k),
                k,
                b0,
                step,
            ));
            assert(level_after(stopround, r, k) == Some(r));
        }
        assert forall|x: int| 0 <= x < 2 * p implies (#[trigger] skipped(
            stopround,
            max_bits_to_gen_right,
            r,
            x,
        ) <==> frozen(stopround, r, x)) by {}
        lemma_noisy_round_raises_level(
            params,
            prev,
            r,
            stopround,
            max_bits_to_gen_right,
            wl,
            wr,
            ng,
            s,
            c,
            target,
            2 * p,
            el,
            er,
            key_bound,
            b0,
            step,
        );
        let fin: Seq<Seq<u64>> = expansion(
            params,
            start,
            g,
            stopround,
            max_bits_to_gen_right,
            v_w_left,
            v_w_right,
            v_neg1,
        );
        assert(fin == expansion_round(
            params,
            prev,
            r,
            stopround,
            max_bits_to_gen_right,
            wl,
            wr,
            ng,
            2 * p,
        ));
        assert(round_near(params, fin, prev, s, c, target, stopround, r, 2 * p, b0, step));
        assert forall|k: int| 0 <= k < fin.len() implies holds_near(
            params,
            #[trigger] fin[k],
            start[k],
            s,
            c,
            target,
            level_after(stopround, g, k),
            k,
            b0,
            step,
        ) by {
            assert(holds_near(
                params,
                fin[k],
                prev[k],
                s,
                c,
                target,
                level_during(stopround, r, 2 * p, k),
                k,
                b0,
                step,
            ));
            assert(holds_near(
                params,
                prev[k],
                start[k],
                s,
                c,
                target,
                level_after(stopround, r, k),
                k,
                b0,
                step,
            ));
            if stopround > 0 && r > stopround {
                // the level after the stop round is no later than this round
                if stopround + 1 < r {
                    lemma_pow2_strictly_increases((stopround + 1) as nat, r as nat);
                }
                assert(pow2((stopround + 1) as nat) <= p);
            }
        }
    } else {
        assert forall|k: int| 0 <= k < start.len() implies holds_near(
            params,
            #[trigger] start[k],
            start[k],
            s,
            c,
            target,
            level_after(stopround, 0, k),
            k,
            b0,
            step,
        ) by {}
    }
}

/// The value of a polynomial with a single coefficient is that coefficient
/// times the power of the point.
proof fn lemma_eval_single(c: Seq<int>, x: int, at: int, k: int)
    requires
        0 <= at,
        0 <= k,
        forall|j: int| 0 <= j < k && j != at ==> #[trigger] c[j] == 0,
    ensures
        eval(c, x, k) == (if at < k {
            c[at] * pow(x, at as nat)
        } else {
            0
        }),
    decreases k,
{
    if k > 0 {
        lemma_eval_single(c, x, at, k - 1);
        if at != k - 1 {
            assert(c[k - 1] == 0);
            assert(0 * pow(x, (k - 1) as nat) == 0);
        }
    }
}

/// The integer coefficients of `kappa * x^e` in the ring, for
/// `0 <= e < 2 * len`: for `e` from `len` on it is `-kappa * x^(e - len)`.
pub open spec fn monomial_coeffs(len: int, kappa: int, e: int) -> Seq<int> {
    Seq::new(
        len as nat,
        |j: int|
            if e < len && j == e {
                kappa
            } else if e >= len && j == e - len {
                -kappa
            } else {
                0
            },
    )
}

/// The polynomial `kappa * x^e` plus the polynomial `nu`, with every
/// coefficient reduced modulo the ciphertext modulus.
pub open spec fn noisy_monomial(params: &Params, kappa: int, e: int, nu: Seq<int>) -> Seq<u64> {
    Seq::new(
        params.poly_len as nat,
        |j: int|
            ((monomial_coeffs(params.poly_len as int, kappa, e)[j] + nu[j]) % (
            params.modulus as int)) as u64,
    )
}

/// A ciphertext at a level up to the noise `nu` decrypts to the level
/// monomial plus `nu`.
pub proof fn lemma_near_level_decrypts(
    params: &Params,
    ct: Seq<u64>,
    s: Seq<u64>,
    c: int,
    target: int,
    l: int,
    k: int,
    nu: Seq<int>,
    bound: int,
)
    requires
        params.wf(),
        is_level_noise(params, ct, s, c, target, l, k, nu, bound),
    ensures
        decrypted(params, ct, 1, 0, s) == noisy_monomial(
            params,
            level_coefficient(c, target, l, k),
            level_exponent(params.poly_len as int, target, k),
            nu,
        ),
{
    let len: int = params.poly_len as int;
    let big: int = params.modulus as int;
    let kappa: int = level_coefficient(c, target, l, k);
    let e: int = level_exponent(len, target, k);
    let mono: Seq<int> = monomial_coeffs(len, kappa, e);
    let sum: Seq<int> = Seq::new(len as nat, |j: int| mono[j] + 1 * nu[j]);
    let m: Seq<u64> = noisy_monomial(params, kappa, e, nu);
    let at: int = if e < len {
        e
    } else {
        e - len
    };
    lemma_mod_bound(target - k, 2 * len);
    assert(params.residue_wf(0));
    assert forall|n: int, z: int|
        0 <= n < params.crt_count && 0 <= z < params.poly_len implies #[trigger] column_phase(
        params,
        ct,
        1,
        0,
        s[n * params.poly_len + z] as int,
        n,
        z,
    ) % params.q(n) == eval(
        sum,
        pow(params.roots@[n] as int, (2 * z + 1) as nat),
        params.poly_len as int,
    ) % params.q(n) by {
        let q: int = params.q(n);
        let psi: int = params.roots@[n] as int;
        assert(params.residue_wf(n));
        let x0: int = pow(psi, (2 * z + 1) as nat);
        lemma_point_is_root(psi, len, q, z);
        let ph: int = column_phase(params, ct, 1, 0, s[n * len + z] as int, n, z);
        let pe: int = pow(x0, e as nat);
        let ev: int = eval(nu, x0, len);
        assert(ph % q == (kappa * pe + ev) % q);
        lemma_eval_add_scaled(sum, mono, nu, 1, x0, len);
        assert(1 * ev == ev);
        // the value of the monomial
        lemma_eval_single(mono, x0, at, len);
        let pa: int = pow(x0, at as nat);
        assert(eval(mono, x0, len) == mono[at] * pa);
        if e >= len {
            // x0^e = x0^at * x0^len = -x0^at
            lemma_pow_adds(x0, at as nat, len as nat);
            assert(at as nat + len as nat == e as nat);
            lemma_small_mod((q - 1) as nat, q as nat);
            lemma_mul_congruent(pa, pa, pow(x0, len as nat), q - 1, q);
            assert(pa * (q - 1) == q * pa + (-pa)) by (nonlinear_arith);
            lemma_mod_multiples_vanish(pa, -pa, q);
            lemma_mul_congruent(kappa, kappa, pe, -pa, q);
            assert(kappa * (-pa) == (-kappa) * pa) by (nonlinear_arith);
        }
        assert((mono[at] * pa) % q == (kappa * pe) % q);
        lemma_add_congruent(mono[at] * pa, kappa * pe, ev, ev, q);
    }
    lemma_decrypts_to_reduced(params, ct, 1, 0, s, sum);
    assert(m =~= reduced(params, sum));
}

/// A multiple `k * floor(q / p)` of the scale with `1 <= k < p`, plus a
/// noise below half the scale, does not decode to zero, and the noise alone
/// does.
pub proof fn lemma_noisy_value_decodes(q: int, p: int, k: int, noise: int)
    requires
        2 <= p <= q,
        1 <= k < p,
        -(q / p) < 2 * noise < q / p,
    ensures
        !decodes_to_zero((k * (q / p) + noise) % q, q, q / p),
        decodes_to_zero(noise % q, q, q / p),
{
    let scale: int = q / p;
    lemma_fundamental_div_mod(q, p);
    lemma_mod_bound(q, p);
    lemma_fundamental_div_mod(q, 2);
    assert(scale >= 1 && p * scale <= q && 2 * scale <= q) by (nonlinear_arith)
        requires
            q == p * scale + q % p,
            0 <= q % p < p,
            p <= q,
            p >= 2,
    ;
    let v: int = k * scale;
    assert(scale <= v && v + scale <= q) by (nonlinear_arith)
        requires
            v == k * scale,
            1 <= k,
            k + 1 <= p,
            p * scale <= q,
            scale >= 1,
    ;
    lemma_small_mod((v + noise) as nat, q as nat);
    if noise >= 0 {
        lemma_small_mod(noise as nat, q as nat);
    } else {
        lemma_small_mod((q + noise) as nat, q as nat);
        lemma_mod_add_multiples_vanish(noise, q);
    }
}

/// The bound of the noise grows with the level.
pub proof fn lemma_noise_at_grows(b0: int, step: int, l: int, g: int)
    requires
        b0 >= 0,
        step >= 0,
        0 <= l <= g,
    ensures
        0 <= noise_at(b0, step, l) <= noise_at(b0, step, g),
    decreases g,
{
    lemma_noise_at(b0, step, l);
    if l < g {
        lemma_noise_at_grows(b0, step, l, g - 1);
    }
}

/// Expansion one-hotness under noise, decoded. Where the ciphertext at
/// position 0 encrypts the scale `floor(q / p)` times `x^target` up to a
/// noise of at most `b0`, the keys are valid up to a noise of at most
/// `key_bound`, `2^g` is below the plaintext modulus `p` and does not
/// exceed the ring degree, the stop rule skips only the odd positions after
/// the stop round, and the noise of level `g`, which is
/// `2^g * b0 + (2^g - 1) * step`, is below half the scale: of the first
/// `2^g` ciphertexts, every one that a round has written decodes in its
/// coefficient of degree zero to a value other than zero at position
/// `target` and to zero elsewhere, and every one that no round has written
/// is what it was.
pub proof fn lemma_noisy_expansion_decodes(
    params: &Params,
    start: Seq<Seq<u64>>,
    g: int,
    stopround: int,
    max_bits_to_gen_right: int,
    v_w_left: Seq<PolyMatrixNTT>,
    v_w_right: Seq<PolyMatrixNTT>,
    v_neg1: Seq<PolyMatrixNTT>,
    s: Seq<u64>,
    target: int,
    key_bound: int,
    b0: int,
    step: int,
)
    requires
        params.wf(),
        g >= 0,
        stopround >= 0,
        key_bound >= 0,
        b0 >= 0,
        step_covers(params, key_bound, step),
        pow2(g as nat) <= params.poly_len,
        pow2(g as nat) <= start.len(),
        pow2(g as nat) < params.pt_modulus,
        0 <= target < pow2(g as nat),
        start[0].len() == 2 * params.num_words(),
        keys_near(params, v_w_left, v_w_right, v_neg1, s, g, key_bound),
        only_odd_skipped(stopround, max_bits_to_gen_right, g),
        near_level(
            params,
            start[0],
            s,
            (params.modulus / params.pt_modulus) as int,
            target,
            0,
            0,
            b0,
        ),
        2 * (pow2(g as nat) * b0 + (pow2(g as nat) - 1) * step) < params.modulus
            / params.pt_modulus,
    ensures
        forall|k: int|
            0 <= k < pow2(g as nat) && level_after(stopround, g, k) is Some ==> (
            #[trigger] decodes_to_zero(
                decrypted(
                    params,
                    expansion(
                        params,
                        start,
                        g,
                        stopround,
                        max_bits_to_gen_right,
                        v_w_left,
                        v_w_right,
                        v_neg1,
                    )[k],
                    1,
                    0,
                    s,
                )[0] as int,
                params.modulus as int,
                (params.modulus / params.pt_modulus) as int,
            ) <==> k != target),
        forall|k: int|
            0 <= k < pow2(g as nat) && level_after(stopround, g, k) is None ==> (
            #[trigger] expansion(
                params,
                start,
                g,
                stopround,
                max_bits_to_gen_right,
                v_w_left,
                v_w_right,
                v_neg1,
            )[k]) == start[k],
{
    let len: int = params.poly_len as int;
    let big: int = params.modulus as int;
    let p: int = params.pt_modulus as int;
    let scale: int = (params.modulus / params.pt_modulus) as int;
    lemma_noise_at_closed(b0, step, g);
    lemma_noisy_expansion_levels(
        params,
        start,
        g,
        stopround,
        max_bits_to_gen_right,
        v_w_left,
        v_w_right,
        v_neg1,
        s,
        scale,
        target,
        key_bound,
        b0,
        step,
    );
    let fin: Seq<Seq<u64>> = expansion(
        params,
        start,
        g,
        stopround,
        max_bits_to_gen_right,
        v_w_left,
        v_w_right,
        v_neg1,
    );
    assert forall|k: int|
        0 <= k < pow2(g as nat) && level_after(stopround, g, k) is None implies (
    #[trigger] fin[k]) == start[k] by {
        assert(holds_near(
            params,
            fin[k],
            start[k],
            s,
            scale,
            target,
            level_after(stopround, g, k),
            k,
            b0,
            step,
        ));
    }
    assert forall|k: int|
        0 <= k < pow2(g as nat) && level_after(stopround, g, k) is Some implies (
    #[trigger] decodes_to_zero(decrypted(params, fin[k], 1, 0, s)[0] as int, big, scale) <==> k
        != target) by {
        let l: int = level_after(stopround, g, k).unwrap();
        assert(0 <= l <= g);
        lemma_pow2_pos(l as nat);
        if l < g {
            lemma_pow2_strictly_increases(l as nat, g as nat);
        }
        lemma_noise_at_grows(b0, step, l, g);
        let bound: int = noise_at(b0, step, l);
        assert(holds_near(
            params,
            fin[k],
            start[k],
            s,
            scale,
            target,
            level_after(stopround, g, k),
            k,
            b0,
            step,
        ));
        assert(near_level(params, fin[k], s, scale, target, l, k, bound));
        let nu: Seq<int> = choose|nu: Seq<int>|
            #[trigger] is_level_noise(params, fin[k], s, scale, target, l, k, nu, bound);
        lemma_near_level_decrypts(params, fin[k], s, scale, target, l, k, nu, bound);
        let kappa: int = level_coefficient(scale, target, l, k);
        let e: int = level_exponent(len, target, k);
        let n0: int = nu[0];
        assert(-bound <= nu[0] <= bound);
        let val: int = decrypted(params, fin[k], 1, 0, s)[0] as int;
        assert(val == (monomial_coeffs(len, kappa, e)[0] + n0) % big);
        lemma_mod_bound(monomial_coeffs(len, kappa, e)[0] + n0, big);
        let two_l: int = pow2(l as nat) as int;
        lemma_noisy_value_decodes(big, p, two_l, n0);
        if k == target {
            lemma_small_mod(0, (2 * len) as nat);
            lemma_small_mod(0, two_l as nat);
            assert(e == 0);
            assert(kappa == two_l * scale);
        } else {
            // the exponent is neither zero nor the ring degree
            if k < target {
                lemma_small_mod((target - k) as nat, (2 * len) as nat);
            } else {
                lemma_small_mod((target - k + 2 * len) as nat, (2 * len) as nat);
                lemma_mod_add_multiples_vanish(target - k, 2 * len);
            }
            assert(e != 0 && e != len);
            assert(monomial_coeffs(len, kappa, e)[0] == 0);
        }
    }
}

} // verus!
