//! Regev-to-GSW conversion with noise: where the conversion key carries
//! noise, the converted column of a GSW ciphertext decrypts to minus the
//! key times the plaintext of its input, plus a noise whose coefficients
//! stay within a bound that the key and the decomposition give.

use vstd::prelude::*;
use vstd::arithmetic::div_mod::*;
use vstd::arithmetic::mul::*;
use vstd::arithmetic::power2::*;
use vstd::arithmetic::power::*;
use crate::arith::{lemma_add_congruent, lemma_mul_congruent};
use crate::conversion_law::lemma_conversion_parts;
use crate::decrypt::{decrypted, lemma_gsw_copied_column_decrypts};
use crate::expansion_law::centered;
use crate::evaluation::{digit_transform_sum, lemma_point_is_root, lemma_sum_repower};
use crate::gadget::{bits_per, gadget_data};
use crate::noise::{
    bounded, conv, eval, lemma_conv_bounded, lemma_decrypts_to_reduced, lemma_eval_add_scaled,
    lemma_eval_conv, lemma_eval_zero, lemma_sum_is_eval, lemma_total_bounded, one_hot_up_to,
    reduced, total,
};
use crate::noisy_expansion::digit_polys;
use crate::ntt::power_sum;
use crate::params::Params;
use crate::poly::{
    column_phase, from_ntt_data, lemma_ntt_index, lemma_product_phase, ntt_index, phase_product,
    to_ntt_data, to_ntt_word,
};
use crate::server::{conversion_product, lemma_gsw_phase, pair_done};

verus! {

/// The key `key`, a `2 x 2 * t_conv` matrix, converts for the key whose
/// transform is `s` up to the noise `e`: under `s`, at every position,
/// column `2k` decrypts to the digit weight `2^(bits k)` times the square
/// of the word of `s`, and column `2k + 1` to minus the digit weight times
/// the word of `s`, each plus the value there of the polynomial of `e` for
/// the column, whose coefficients are at most `bound` in absolute value.
pub open spec fn is_noisy_conversion_key(
    params: &Params,
    key: Seq<u64>,
    s: Seq<u64>,
    e: Seq<Seq<int>>,
    bound: int,
) -> bool {
    &&& e.len() == 2 * params.t_conv
    &&& forall|r: int|
        0 <= r < 2 * params.t_conv ==> (#[trigger] e[r]).len() == params.poly_len && bounded(
            e[r],
            bound,
        )
    &&& forall|k: int, n: int, z: int|
        0 <= k < params.t_conv && 0 <= n < params.crt_count && 0 <= z < params.poly_len ==> {
            &&& #[trigger] column_phase(
                params,
                key,
                2 * params.t_conv,
                2 * k,
                s[n * params.poly_len + z] as int,
                n,
                z,
            ) % params.q(n) == ((pow2((bits_per(params, params.t_conv as int) * k) as nat) as int)
                * ((s[n * params.poly_len + z] as int) * (s[n * params.poly_len + z] as int))
                + eval(
                e[2 * k],
                pow(params.roots@[n] as int, (2 * z + 1) as nat),
                params.poly_len as int,
            )) % params.q(n)
            &&& column_phase(
                params,
                key,
                2 * params.t_conv,
                2 * k + 1,
                s[n * params.poly_len + z] as int,
                n,
                z,
            ) % params.q(n) == (-(pow2((bits_per(params, params.t_conv as int) * k) as nat) as int)
                * (s[n * params.poly_len + z] as int) + eval(
                e[2 * k + 1],
                pow(params.roots@[n] as int, (2 * z + 1) as nat),
                params.poly_len as int,
            )) % params.q(n)
        }
}

/// The noise that a conversion adds: the sum of the products in the ring
/// of the noise polynomials of the key and the digit polynomials of the
/// two rows of the ciphertext.
pub open spec fn conversion_noise(params: &Params, inp: Seq<u64>, e: Seq<Seq<int>>) -> Seq<int> {
    total(
        e,
        digit_polys(
            gadget_data(params, from_ntt_data(params, inp), 2 * params.t_conv, 1, 2),
            params.poly_len as int,
            2 * params.t_conv,
        ),
        params.poly_len as int,
        2 * params.t_conv,
    )
}

/// With a key that is valid up to noise, the first `2k` columns of the
/// conversion key times the digits decrypt to the square of the key word
/// times what the digits of the first row recompose to, minus the key word
/// times what the digits of the second row recompose to, plus the value of
/// the sum of the products of the noise and the digit polynomials.
proof fn lemma_noisy_conversion_product(
    params: &Params,
    key: Seq<u64>,
    digits_raw: Seq<u64>,
    s: Seq<u64>,
    e: Seq<Seq<int>>,
    bound: int,
    n: int,
    z: int,
    k: int,
)
    requires
        params.wf(),
        0 <= k <= params.t_conv,
        0 <= n < params.crt_count,
        0 <= z < params.poly_len,
        digits_raw.len() == (2 * params.t_conv) * params.poly_len,
        is_noisy_conversion_key(params, key, s, e, bound),
    ensures
        phase_product(
            params,
            key,
            2 * params.t_conv,
            to_ntt_data(params, digits_raw),
            1,
            0,
            s[n * params.poly_len + z] as int,
            n,
            z,
            2 * k,
        ) % params.q(n) == (((s[n * params.poly_len + z] as int) * (s[n * params.poly_len + z]
            as int)) * digit_transform_sum(
            digits_raw,
            0,
            2 * params.poly_len,
            params.poly_len as int,
            params.roots@[n] as int,
            2 * z + 1,
            bits_per(params, params.t_conv as int),
            k,
        ) - (s[n * params.poly_len + z] as int) * digit_transform_sum(
            digits_raw,
            params.poly_len as int,
            2 * params.poly_len,
            params.poly_len as int,
            params.roots@[n] as int,
            2 * z + 1,
            bits_per(params, params.t_conv as int),
            k,
        ) + eval(
            total(
                e,
                digit_polys(digits_raw, params.poly_len as int, 2 * params.t_conv),
                params.poly_len as int,
                2 * k,
            ),
            pow(params.roots@[n] as int, (2 * z + 1) as nat),
            params.poly_len as int,
        )) % params.q(n),
    decreases k,
{
    let len: int = params.poly_len as int;
    let t: int = params.t_conv as int;
    let q: int = params.q(n);
    let psi: int = params.roots@[n] as int;
    let bits: int = bits_per(params, t);
    let sv: int = s[n * len + z] as int;
    let digits: Seq<u64> = to_ntt_data(params, digits_raw);
    let dig: Seq<Seq<int>> = digit_polys(digits_raw, len, 2 * t);
    let x0: int = pow(psi, (2 * z + 1) as nat);
    assert(params.residue_wf(0));
    assert(params.residue_wf(n));
    if k > 0 {
        lemma_point_is_root(psi, len, q, z);
        lemma_noisy_conversion_product(params, key, digits_raw, s, e, bound, n, z, k - 1);
        let j: int = k - 1;
        let weight: int = pow2((bits * j) as nat) as int;
        let ph_a: int = column_phase(params, key, 2 * t, 2 * j, sv, n, z);
        let ph_b: int = column_phase(params, key, 2 * t, 2 * j + 1, sv, n, z);
        let ea: Seq<int> = e[2 * j];
        let eb: Seq<int> = e[2 * j + 1];
        let pa: Seq<int> = dig[2 * j];
        let pb: Seq<int> = dig[2 * j + 1];
        assert(ea.len() == len && eb.len() == len && pa.len() == len && pb.len() == len);
        let eva: int = eval(ea, x0, len);
        let evb: int = eval(eb, x0, len);
        let dva: int = eval(pa, x0, len);
        let dvb: int = eval(pb, x0, len);
        assert(ph_a % q == (weight * (sv * sv) + eva) % q);
        assert(ph_b % q == (-weight * sv + evb) % q);
        assert(digits.len() == (2 * t) * 1 * params.num_words()) by (nonlinear_arith)
            requires
                digits.len() == digits_raw.len() * params.crt_count,
                digits_raw.len() == (2 * t) * len,
                params.num_words() == params.crt_count * len,
        ;
        // the words of the two digit polynomials
        lemma_ntt_index(params, 2 * t, 1, 2 * j, 0, n, z);
        lemma_ntt_index(params, 2 * t, 1, 2 * j + 1, 0, n, z);
        let ia: int = ntt_index(params, 1, 2 * j, 0, n, z);
        let ib: int = ntt_index(params, 1, 2 * j + 1, 0, n, z);
        assert((2 * j) * 1 + 0 == 2 * j && (2 * j + 1) * 1 + 0 == 2 * j + 1);
        assert((2 * j) * len == 0 + j * (2 * len) && (2 * j + 1) * len == len + j * (2 * len))
            by (nonlinear_arith);
        let sum_a: int = power_sum(digits_raw, 0 + j * (2 * len), psi, 0, 2 * z + 1, len);
        let sum_b: int = power_sum(digits_raw, len + j * (2 * len), psi, 0, 2 * z + 1, len);
        lemma_mod_bound(sum_a, q);
        lemma_mod_bound(sum_b, q);
        assert(digits[ia] == to_ntt_word(params, digits_raw, ia));
        assert(digits[ib] == to_ntt_word(params, digits_raw, ib));
        let da: int = digits[ia] as int;
        let db: int = digits[ib] as int;
        assert(da == sum_a % q);
        assert(db == sum_b % q);
        lemma_mod_twice(sum_a, q);
        lemma_mod_twice(sum_b, q);
        let p0: int = phase_product(params, key, 2 * t, digits, 1, 0, sv, n, z, 2 * j);
        let p1: int = phase_product(params, key, 2 * t, digits, 1, 0, sv, n, z, 2 * j + 1);
        let p2: int = phase_product(params, key, 2 * t, digits, 1, 0, sv, n, z, 2 * k);
        assert(p1 == p0 + ph_a * da);
        assert(2 * k - 1 == 2 * j + 1);
        assert(p2 == p1 + ph_b * db);
        let ta: int = digit_transform_sum(digits_raw, 0, 2 * len, len, psi, 2 * z + 1, bits, j);
        let tb: int = digit_transform_sum(digits_raw, len, 2 * len, len, psi, 2 * z + 1, bits, j);
        // the words of the digits are the values of the digit polynomials
        lemma_sum_repower(digits_raw, 0 + j * (2 * len), psi, 2 * z + 1, len);
        lemma_sum_repower(digits_raw, len + j * (2 * len), psi, 2 * z + 1, len);
        assert forall|i: int| 0 <= i < len implies (#[trigger] digits_raw[0 + j * (2 * len) + i]
            as int) % q == pa[i] % q by {
            assert(pa[i] == digits_raw[(2 * j) * len + i] as int);
        }
        assert forall|i: int| 0 <= i < len implies (#[trigger] digits_raw[len + j * (2 * len) + i]
            as int) % q == pb[i] % q by {
            assert(pb[i] == digits_raw[(2 * j + 1) * len + i] as int);
        }
        lemma_sum_is_eval(digits_raw, 0 + j * (2 * len), pa, x0, q, len);
        lemma_sum_is_eval(digits_raw, len + j * (2 * len), pb, x0, q, len);
        assert(sum_a % q == dva % q);
        assert(sum_b % q == dvb % q);
        // the noise of the two columns times the digit polynomials
        lemma_eval_conv(ea, pa, x0, q, len);
        lemma_eval_conv(eb, pb, x0, q, len);
        let prod_a: Seq<int> = conv(ea, pa, len);
        let prod_b: Seq<int> = conv(eb, pb, len);
        let n0: Seq<int> = total(e, dig, len, 2 * j);
        let n1: Seq<int> = total(e, dig, len, 2 * j + 1);
        let n2: Seq<int> = total(e, dig, len, 2 * k);
        assert forall|i: int| 0 <= i < len implies #[trigger] n1[i] == n0[i] + 1 * prod_a[i] by {}
        assert forall|i: int| 0 <= i < len implies #[trigger] n2[i] == n1[i] + 1 * prod_b[i] by {}
        lemma_eval_add_scaled(n1, n0, prod_a, 1, x0, len);
        lemma_eval_add_scaled(n2, n1, prod_b, 1, x0, len);
        let va: int = eval(prod_a, x0, len);
        let vb: int = eval(prod_b, x0, len);
        assert(eval(n2, x0, len) == eval(n0, x0, len) + va + vb) by (nonlinear_arith)
            requires
                eval(n1, x0, len) == eval(n0, x0, len) + 1 * va,
                eval(n2, x0, len) == eval(n1, x0, len) + 1 * vb,
        ;
        // the two columns
        let wa: int = weight * (sv * sv);
        let wb: int = -weight * sv;
        lemma_mul_congruent(ph_a, wa + eva, da, da, q);
        lemma_mul_congruent(wa, wa, da, sum_a, q);
        lemma_mul_congruent(eva, eva, da, dva, q);
        assert((wa + eva) * da == wa * da + eva * da) by (nonlinear_arith);
        lemma_add_congruent(wa * da, wa * sum_a, eva * da, eva * dva, q);
        lemma_add_congruent(wa * sum_a, wa * sum_a, eva * dva, va, q);
        assert((ph_a * da) % q == (wa * sum_a + va) % q);
        lemma_mul_congruent(ph_b, wb + evb, db, db, q);
        lemma_mul_congruent(wb, wb, db, sum_b, q);
        lemma_mul_congruent(evb, evb, db, dvb, q);
        assert((wb + evb) * db == wb * db + evb * db) by (nonlinear_arith);
        lemma_add_congruent(wb * db, wb * sum_b, evb * db, evb * dvb, q);
        lemma_add_congruent(wb * sum_b, wb * sum_b, evb * dvb, vb, q);
        assert((ph_b * db) % q == (wb * sum_b + vb) % q);
        let before: int = (sv * sv) * ta - sv * tb + eval(n0, x0, len);
        lemma_add_congruent(p0, before, ph_a * da, wa * sum_a + va, q);
        lemma_add_congruent(p1, before + (wa * sum_a + va), ph_b * db, wb * sum_b + vb, q);
        assert(before + (wa * sum_a + va) + (wb * sum_b + vb) == (sv * sv) * (ta + weight * sum_a)
            - sv * (tb + weight * sum_b) + eval(n2, x0, len)) by (nonlinear_arith)
            requires
                before == (sv * sv) * ta - sv * tb + eval(n0, x0, len),
                wa == weight * (sv * sv),
                wb == -weight * sv,
                eval(n2, x0, len) == eval(n0, x0, len) + va + vb,
        ;
    } else {
        assert((sv * sv) * 0 - sv * 0 == 0) by (nonlinear_arith);
        lemma_eval_zero(total(e, dig, len, 0), x0, len);
    }
}

/// With a conversion key that is valid up to noise, the conversion key
/// times the full decomposition of a ciphertext decrypts, at a position,
/// to minus the word of the key times what the ciphertext decrypts to,
/// plus the value of the noise of the conversion.
proof fn lemma_noisy_conversion_at(
    params: &Params,
    key: Seq<u64>,
    inp: Seq<u64>,
    s: Seq<u64>,
    e: Seq<Seq<int>>,
    bound: int,
    n: int,
    z: int,
)
    requires
        params.wf(),
        inp.len() == 2 * params.num_words(),
        is_noisy_conversion_key(params, key, s, e, bound),
        0 <= n < params.crt_count,
        0 <= z < params.poly_len,
    ensures
        column_phase(
            params,
            conversion_product(params, key, inp),
            1,
            0,
            s[n * params.poly_len + z] as int,
            n,
            z,
        ) % params.q(n) == (-(s[n * params.poly_len + z] as int) * column_phase(
            params,
            inp,
            1,
            0,
            s[n * params.poly_len + z] as int,
            n,
            z,
        ) + eval(
            conversion_noise(params, inp, e),
            pow(params.roots@[n] as int, (2 * z + 1) as nat),
            params.poly_len as int,
        )) % params.q(n),
        forall|r: int, i: int|
            0 <= r < 2 * params.t_conv && 0 <= i < params.poly_len ==> (#[trigger] gadget_data(
                params,
                from_ntt_data(params, inp),
                2 * params.t_conv,
                1,
                2,
            )[r * params.poly_len + i] as int) < pow2(
                bits_per(params, params.t_conv as int) as nat,
            ),
{
    let len: int = params.poly_len as int;
    let t: int = params.t_conv as int;
    let q: int = params.q(n);
    let psi: int = params.roots@[n] as int;
    let bits: int = bits_per(params, t);
    let sv: int = s[n * len + z] as int;
    let digits_raw: Seq<u64> = gadget_data(params, from_ntt_data(params, inp), 2 * t, 1, 2);
    assert(params.residue_wf(n));
    lemma_conversion_parts(params, inp, n, z);
    lemma_product_phase(params, key, 2 * t, to_ntt_data(params, digits_raw), 1, 0, sv, n, z);
    let ta: int = digit_transform_sum(digits_raw, 0, 2 * len, len, psi, 2 * z + 1, bits, t);
    let tb: int = digit_transform_sum(digits_raw, len, 2 * len, len, psi, 2 * z + 1, bits, t);
    let c0: int = inp[ntt_index(params, 1, 0, 0, n, z)] as int;
    let c1: int = inp[ntt_index(params, 1, 1, 0, n, z)] as int;
    let here: int = column_phase(params, inp, 1, 0, sv, n, z);
    lemma_mul_congruent(sv * sv, sv * sv, ta, c0, q);
    lemma_mul_congruent(sv, sv, tb, c1, q);
    lemma_sub_mod_noop((sv * sv) * ta, sv * tb, q);
    lemma_sub_mod_noop((sv * sv) * c0, sv * c1, q);
    assert((sv * sv) * c0 - sv * c1 == -sv * here) by (nonlinear_arith)
        requires
            here == c1 - sv * c0,
    ;
    lemma_noisy_conversion_product(params, key, digits_raw, s, e, bound, n, z, t);
    let nv: int = eval(conversion_noise(params, inp, e), pow(psi, (2 * z + 1) as nat), len);
    lemma_add_congruent((sv * sv) * ta - sv * tb, -sv * here, nv, nv, q);
}

/// Regev-to-GSW fidelity under noise. With a conversion key that is valid
/// up to a noise of at most `bound`, column pair `j` of a GSW ciphertext
/// made from the input `inp` decrypts, at every position, in the copied
/// column `2j + 1` to what `inp` decrypts to, and in the converted column
/// `2j` to minus the key times what `inp` decrypts to, plus the value of
/// the noise of the conversion, whose coefficients are at most
/// `2 * t_conv * poly_len * bound * 2^bits` in absolute value.
pub proof fn lemma_noisy_gsw_columns_decrypt(
    params: &Params,
    g: Seq<u64>,
    key: Seq<u64>,
    inp: Seq<u64>,
    j: int,
    s: Seq<u64>,
    e: Seq<Seq<int>>,
    bound: int,
)
    requires
        params.wf(),
        inp.len() == 2 * params.num_words(),
        pair_done(params, g, key, inp, j),
        bound >= 0,
        is_noisy_conversion_key(params, key, s, e, bound),
    ensures
        conversion_noise(params, inp, e).len() == params.poly_len,
        bounded(
            conversion_noise(params, inp, e),
            (2 * params.t_conv) * (params.poly_len * (bound * pow2(
                bits_per(params, params.t_conv as int) as nat,
            ))),
        ),
        forall|n: int, z: int|
            0 <= n < params.crt_count && 0 <= z < params.poly_len ==> {
                &&& #[trigger] column_phase(
                    params,
                    g,
                    2 * params.t_gsw,
                    2 * j + 1,
                    s[n * params.poly_len + z] as int,
                    n,
                    z,
                ) == column_phase(params, inp, 1, 0, s[n * params.poly_len + z] as int, n, z)
                &&& column_phase(
                    params,
                    g,
                    2 * params.t_gsw,
                    2 * j,
                    s[n * params.poly_len + z] as int,
                    n,
                    z,
                ) % params.q(n) == (-(s[n * params.poly_len + z] as int) * column_phase(
                    params,
                    inp,
                    1,
                    0,
                    s[n * params.poly_len + z] as int,
                    n,
                    z,
                ) + eval(
                    conversion_noise(params, inp, e),
                    pow(params.roots@[n] as int, (2 * z + 1) as nat),
                    params.poly_len as int,
                )) % params.q(n)
            },
{
    let len: int = params.poly_len as int;
    let t: int = params.t_conv as int;
    let bits: int = bits_per(params, t);
    let base: int = pow2(bits as nat) as int;
    let digits_raw: Seq<u64> = gadget_data(params, from_ntt_data(params, inp), 2 * t, 1, 2);
    let dig: Seq<Seq<int>> = digit_polys(digits_raw, len, 2 * t);
    let noise: Seq<int> = conversion_noise(params, inp, e);
    lemma_conversion_parts(params, inp, 0, 0);
    assert forall|r: int| 0 <= r < 2 * t implies (#[trigger] dig[r]).len() == len && bounded(
        dig[r],
        base,
    ) by {
        assert forall|i: int| 0 <= i < dig[r].len() implies -base <= #[trigger] dig[r][i]
            <= base by {
            assert((digits_raw[r * len + i] as int) < base);
        }
    }
    assert(one_hot_up_to(e, len, 2 * t, 0, bound)) by {
        assert forall|k: int, i: int| 0 <= k < e.len() && 0 <= i < len implies {
            &&& (#[trigger] e[k]).len() == len
            &&& -bound <= #[trigger] e[k][i] - (if k == 2 * t && i == 0 {
                0int
            } else {
                0int
            }) <= bound
        } by {
            assert(bounded(e[k], bound));
        }
    }
    assert forall|z: int| 0 <= z < noise.len() implies -((2 * t) * (len * (bound * base)))
        <= #[trigger] noise[z] <= (2 * t) * (len * (bound * base)) by {
        lemma_total_bounded(e, dig, len, 2 * t, 0, bound, base, 2 * t, z);
    }
    assert forall|n: int, z: int| 0 <= n < params.crt_count && 0 <= z < params.poly_len implies {
        &&& #[trigger] column_phase(
            params,
            g,
            2 * params.t_gsw,
            2 * j + 1,
            s[n * params.poly_len + z] as int,
            n,
            z,
        ) == column_phase(params, inp, 1, 0, s[n * params.poly_len + z] as int, n, z)
        &&& column_phase(
            params,
            g,
            2 * params.t_gsw,
            2 * j,
            s[n * params.poly_len + z] as int,
            n,
            z,
        ) % params.q(n) == (-(s[n * params.poly_len + z] as int) * column_phase(
            params,
            inp,
            1,
            0,
            s[n * params.poly_len + z] as int,
            n,
            z,
        ) + eval(
            conversion_noise(params, inp, e),
            pow(params.roots@[n] as int, (2 * z + 1) as nat),
            params.poly_len as int,
        )) % params.q(n)
    } by {
        let sv: int = s[n * params.poly_len + z] as int;
        lemma_gsw_phase(params, g, key, inp, j, sv, n, z);
        lemma_noisy_conversion_at(params, key, inp, s, e, bound, n, z);
        lemma_product_phase(
            params,
            key,
            2 * params.t_conv,
            to_ntt_data(
                params,
                gadget_data(params, from_ntt_data(params, inp), 2 * params.t_conv, 1, 2),
            ),
            1,
            0,
            sv,
            n,
            z,
        );
    }
}

/// What the converted column of a GSW ciphertext decrypts to: minus the
/// product in the ring of what the input decrypts to, `a`, and the key,
/// `s_int`, plus the noise of the conversion.
pub open spec fn converted_plain(
    params: &Params,
    inp: Seq<u64>,
    s_int: Seq<int>,
    a: Seq<int>,
    e: Seq<Seq<int>>,
) -> Seq<int> {
    Seq::new(
        params.poly_len as nat,
        |i: int|
            conversion_noise(params, inp, e)[i] + (-1) * conv(a, s_int, params.poly_len as int)[i],
    )
}

/// Regev-to-GSW fidelity under noise, decrypted. Where the key is the
/// transform of the polynomial `s_int` with coefficients of at most
/// `key_size` in absolute value, the conversion key is valid up to a noise
/// of at most `bound`, and the input of column pair `j` decrypts to the
/// polynomial `a`, which is the constant `kappa` up to a noise of at most
/// `noise`: the copied column `2j + 1` decrypts to `a`, and the converted
/// column `2j` to a polynomial whose coefficients differ from those of
/// `-kappa` times the key by at most
/// `poly_len * noise * key_size + 2 * t_conv * poly_len * bound * 2^bits`.
pub proof fn lemma_noisy_gsw_columns_decrypt_to(
    params: &Params,
    g: Seq<u64>,
    key: Seq<u64>,
    inp: Seq<u64>,
    j: int,
    s: Seq<u64>,
    s_int: Seq<int>,
    a: Seq<int>,
    kappa: int,
    noise: int,
    key_size: int,
    e: Seq<Seq<int>>,
    bound: int,
)
    requires
        params.wf(),
        inp.len() == 2 * params.num_words(),
        pair_done(params, g, key, inp, j),
        bound >= 0,
        noise >= 0,
        key_size >= 0,
        is_noisy_conversion_key(params, key, s, e, bound),
        s_int.len() == params.poly_len,
        bounded(s_int, key_size),
        forall|n: int, z: int|
            0 <= n < params.crt_count && 0 <= z < params.poly_len ==> (#[trigger] s[n
                * params.poly_len + z] as int) % params.q(n) == eval(
                s_int,
                pow(params.roots@[n] as int, (2 * z + 1) as nat),
                params.poly_len as int,
            ) % params.q(n),
        a.len() == params.poly_len,
        forall|i: int|
            0 <= i < params.poly_len ==> -noise <= #[trigger] a[i] - (if i == 0 {
                kappa
            } else {
                0
            }) <= noise,
        forall|n: int, z: int|
            0 <= n < params.crt_count && 0 <= z < params.poly_len ==> #[trigger] column_phase(
                params,
                inp,
                1,
                0,
                s[n * params.poly_len + z] as int,
                n,
                z,
            ) % params.q(n) == eval(
                a,
                pow(params.roots@[n] as int, (2 * z + 1) as nat),
                params.poly_len as int,
            ) % params.q(n),
    ensures
        decrypted(params, g, 2 * params.t_gsw, 2 * j + 1, s) == reduced(params, a),
        decrypted(params, g, 2 * params.t_gsw, 2 * j, s) == reduced(
            params,
            converted_plain(params, inp, s_int, a, e),
        ),
        forall|i: int|
            0 <= i < params.poly_len ==> {
                let slack: int = params.poly_len * (noise * key_size) + (2 * params.t_conv) * (
                params.poly_len * (bound * pow2(bits_per(params, params.t_conv as int) as nat)));
                -slack <= #[trigger] converted_plain(params, inp, s_int, a, e)[i] + kappa
                    * s_int[i] <= slack
            },
{
    let len: int = params.poly_len as int;
    let conv_noise: Seq<int> = conversion_noise(params, inp, e);
    let prod: Seq<int> = conv(a, s_int, len);
    let plain: Seq<int> = converted_plain(params, inp, s_int, a, e);
    let nb: int = (2 * params.t_conv) * (len * (bound * pow2(
        bits_per(params, params.t_conv as int) as nat,
    )));
    lemma_noisy_gsw_columns_decrypt(params, g, key, inp, j, s, e, bound);
    assert forall|n: int, z: int|
        0 <= n < params.crt_count && 0 <= z < params.poly_len implies #[trigger] column_phase(
        params,
        g,
        2 * params.t_gsw,
        2 * j + 1,
        s[n * params.poly_len + z] as int,
        n,
        z,
    ) % params.q(n) == eval(
        a,
        pow(params.roots@[n] as int, (2 * z + 1) as nat),
        params.poly_len as int,
    ) % params.q(n) by {
        let here: int = column_phase(params, inp, 1, 0, s[n * params.poly_len + z] as int, n, z);
        assert(here % params.q(n) == eval(
            a,
            pow(params.roots@[n] as int, (2 * z + 1) as nat),
            params.poly_len as int,
        ) % params.q(n));
    }
    lemma_decrypts_to_reduced(params, g, 2 * params.t_gsw, 2 * j + 1, s, a);
    assert forall|n: int, z: int|
        0 <= n < params.crt_count && 0 <= z < params.poly_len implies #[trigger] column_phase(
        params,
        g,
        2 * params.t_gsw,
        2 * j,
        s[n * params.poly_len + z] as int,
        n,
        z,
    ) % params.q(n) == eval(
        plain,
        pow(params.roots@[n] as int, (2 * z + 1) as nat),
        params.poly_len as int,
    ) % params.q(n) by {
        let q: int = params.q(n);
        let psi: int = params.roots@[n] as int;
        assert(params.residue_wf(0));
        assert(params.residue_wf(n));
        let x0: int = pow(psi, (2 * z + 1) as nat);
        lemma_point_is_root(psi, len, q, z);
        let sv: int = s[n * len + z] as int;
        let here: int = column_phase(params, inp, 1, 0, sv, n, z);
        let copied: int = column_phase(params, g, 2 * params.t_gsw, 2 * j + 1, sv, n, z);
        assert(copied == here);
        let es: int = eval(s_int, x0, len);
        let ea: int = eval(a, x0, len);
        let nv: int = eval(conv_noise, x0, len);
        assert(sv % q == es % q);
        assert(here % q == ea % q);
        lemma_eval_conv(a, s_int, x0, q, len);
        lemma_eval_add_scaled(plain, conv_noise, prod, -1, x0, len);
        lemma_mul_congruent(-1, -1, sv, es, q);
        assert(-1 * sv == -sv && -1 * es == -es);
        lemma_mul_congruent(-sv, -es, here, ea, q);
        lemma_mul_congruent(-1, -1, ea * es, eval(prod, x0, len), q);
        assert(-es * ea == -1 * (ea * es)) by (nonlinear_arith);
        lemma_add_congruent(-sv * here, -1 * eval(prod, x0, len), nv, nv, q);
    }
    lemma_decrypts_to_reduced(params, g, 2 * params.t_gsw, 2 * j, s, plain);
    assert forall|i: int| 0 <= i < params.poly_len implies {
        let slack: int = params.poly_len * (noise * key_size) + (2 * params.t_conv) * (
        params.poly_len * (bound * pow2(bits_per(params, params.t_conv as int) as nat)));
        -slack <= #[trigger] converted_plain(params, inp, s_int, a, e)[i] + kappa * s_int[i]
            <= slack
    } by {
        assert forall|i2: int| 1 <= i2 < len implies -noise <= #[trigger] a[i2] <= noise by {
            assert(-noise <= a[i2] - (if i2 == 0 {
                kappa
            } else {
                0
            }) <= noise);
        }
        lemma_conv_bounded(a, s_int, len, noise, key_size, i);
        let e0: int = a[0] - kappa;
        assert(-noise <= a[0] - (if 0 == 0 {
            kappa
        } else {
            0
        }) <= noise);
        let sz: int = s_int[i];
        assert(-key_size <= sz <= key_size);
        assert(-(noise * key_size) <= e0 * sz <= noise * key_size) by (nonlinear_arith)
            requires
                -noise <= e0 <= noise,
                -key_size <= sz <= key_size,
        ;
        assert(a[0] * sz == kappa * sz + e0 * sz) by (nonlinear_arith)
            requires
                e0 == a[0] - kappa,
        ;
        let unit: int = noise * key_size;
        assert(-(len * unit) <= prod[i] - kappa * sz <= len * unit) by (nonlinear_arith)
            requires
                -((len - 1) * unit) <= prod[i] - a[0] * sz <= (len - 1) * unit,
                a[0] * sz == kappa * sz + e0 * sz,
                -unit <= e0 * sz <= unit,
        ;
        assert(-nb <= conv_noise[i] <= nb);
        assert(plain[i] == conv_noise[i] + (-1) * prod[i]);
    }
}

/// The copied column encodes the bit under noise. Where the input of
/// column pair `j` decrypts to the polynomial `a`, whose constant
/// coefficient is within `noise` of `kappa`, and `kappa` is either zero or
/// at least `threshold + noise` and below half the modulus by more than
/// `noise`, and the threshold is at most half the modulus: the centered word of degree zero of what the copied column
/// `2j + 1` decrypts to is at least `threshold` exactly where `kappa` is
/// not zero.
pub proof fn lemma_copied_column_encodes(
    params: &Params,
    g: Seq<u64>,
    key: Seq<u64>,
    inp: Seq<u64>,
    j: int,
    s: Seq<u64>,
    a: Seq<int>,
    kappa: int,
    noise: int,
    threshold: int,
)
    requires
        params.wf(),
        pair_done(params, g, key, inp, j),
        a.len() == params.poly_len,
        forall|n: int, z: int|
            0 <= n < params.crt_count && 0 <= z < params.poly_len ==> #[trigger] column_phase(
                params,
                inp,
                1,
                0,
                s[n * params.poly_len + z] as int,
                n,
                z,
            ) % params.q(n) == eval(
                a,
                pow(params.roots@[n] as int, (2 * z + 1) as nat),
                params.poly_len as int,
            ) % params.q(n),
        -noise <= a[0] - kappa <= noise,
        0 <= noise < threshold,
        2 * threshold <= params.modulus,
        kappa == 0 || (threshold + noise <= kappa && kappa + noise < params.modulus / 2),
    ensures
        decrypted(params, g, 2 * params.t_gsw, 2 * j + 1, s) == reduced(params, a),
        centered(
            decrypted(params, g, 2 * params.t_gsw, 2 * j + 1, s)[0] as int,
            params.modulus as int,
        ) >= threshold <==> kappa != 0,
{
    let big: int = params.modulus as int;
    lemma_gsw_copied_column_decrypts(params, g, key, inp, j, s);
    lemma_decrypts_to_reduced(params, inp, 1, 0, s, a);
    let val: int = reduced(params, a)[0] as int;
    lemma_mod_bound(a[0], big);
    assert(val == a[0] % big);
    lemma_fundamental_div_mod(big, 2);
    if a[0] >= 0 {
        lemma_small_mod(a[0] as nat, big as nat);
    } else {
        lemma_small_mod((big + a[0]) as nat, big as nat);
        lemma_mod_add_multiples_vanish(a[0], big);
    }
}

} // verus!
