//! What Regev-to-GSW conversion does to plaintexts: with a valid conversion
//! key, the converted column of a GSW ciphertext decrypts to minus the key
//! times the plaintext of its input, and the copied column to the
//! plaintext itself.

use vstd::prelude::*;
use vstd::arithmetic::div_mod::*;
use vstd::arithmetic::mul::*;
use vstd::arithmetic::power2::*;
use vstd::arithmetic::power::*;
use crate::arith::{lemma_add_congruent, lemma_mul_congruent};
use crate::decrypt::{decrypted, lemma_decrypts_to, lemma_sum_scales, scaled_poly};
use crate::evaluation::{digit_transform_sum, lemma_digits_recompose};
use crate::expansion_law::{lemma_from_ntt_in_range, lemma_single_term_sum, monomial_poly};
use crate::gadget::{bits_per, gadget_data, gadget_digit, gadget_word};
use crate::ntt::{forward_coeff, power_sum};
use crate::params::Params;
use crate::poly::{
    column_phase, from_ntt_data, lemma_ntt_index, lemma_product_phase, lemma_split, ntt_index,
    phase_product, raw_index, to_ntt_data, to_ntt_word,
};
use crate::round_trip::lemma_to_ntt_of_from_ntt;
use crate::server::{conversion_product, lemma_gsw_phase, pair_done};

verus! {

/// The key `key`, a `2 x 2 * t_conv` matrix, converts for the key whose
/// transform is `s`: under `s`, at every position, column `2k` decrypts to
/// the digit weight `2^(bits k)` times the square of the word of `s`, and
/// column `2k + 1` to minus the digit weight times the word of `s`.
pub open spec fn is_conversion_key(params: &Params, key: Seq<u64>, s: Seq<u64>) -> bool {
    forall|k: int, n: int, z: int|
        0 <= k < params.t_conv && 0 <= n < params.crt_count && 0 <= z < params.poly_len ==> {
            &&& #[trigger] column_phase(
                params,
                key,
                2 * params.t_conv,
                2 * k,
                s[n * params.poly_len + z] as int,
                n,
                z,
            ) % params.q(n) == ((pow2((bits_per(params, params.t_conv as int) * k) as nat) as int)
                * ((s[n * params.poly_len + z] as int) * (s[n * params.poly_len + z] as int)))
                % params.q(n)
            &&& column_phase(
                params,
                key,
                2 * params.t_conv,
                2 * k + 1,
                s[n * params.poly_len + z] as int,
                n,
                z,
            ) % params.q(n) == (-(pow2((bits_per(params, params.t_conv as int) * k) as nat) as int)
                * (s[n * params.poly_len + z] as int)) % params.q(n)
        }
}

/// The decomposition of a ciphertext for a conversion, whatever the key:
/// at every position the digits of each row recompose to the word of the
/// row, and every digit lies below the digit base.
pub proof fn lemma_conversion_parts(
    params: &Params,
    inp: Seq<u64>,
    n: int,
    z: int,
)
    requires
        params.wf(),
        inp.len() == 2 * params.num_words(),
        0 <= n < params.crt_count,
        0 <= z < params.poly_len,
    ensures
        ({
            let len: int = params.poly_len as int;
            let digits_raw: Seq<u64> = gadget_data(
                params,
                from_ntt_data(params, inp),
                2 * params.t_conv,
                1,
                2,
            );
            let bits: int = bits_per(params, params.t_conv as int);
            &&& digits_raw.len() == (2 * params.t_conv) * len
            &&& digit_transform_sum(
                digits_raw,
                0,
                2 * len,
                len,
                params.roots@[n] as int,
                2 * z + 1,
                bits,
                params.t_conv as int,
            ) % params.q(n) == (inp[ntt_index(params, 1, 0, 0, n, z)] as int) % params.q(n)
            &&& digit_transform_sum(
                digits_raw,
                len,
                2 * len,
                len,
                params.roots@[n] as int,
                2 * z + 1,
                bits,
                params.t_conv as int,
            ) % params.q(n) == (inp[ntt_index(params, 1, 1, 0, n, z)] as int) % params.q(n)
            &&& forall|r: int, i: int|
                0 <= r < 2 * params.t_conv && 0 <= i < len ==> (#[trigger] digits_raw[r * len
                    + i] as int) < pow2(bits as nat)
        }),
{
    let len: int = params.poly_len as int;
    let words: int = params.num_words();
    let crt: int = params.crt_count as int;
    let t: int = params.t_conv as int;
    let q: int = params.q(n);
    let psi: int = params.roots@[n] as int;
    let bits: int = bits_per(params, t);
    let raw: Seq<u64> = from_ntt_data(params, inp);
    let digits_raw: Seq<u64> = gadget_data(params, raw, 2 * t, 1, 2);
    assert(params.residue_wf(0));
    assert(params.residue_wf(n));
    assert(2 * words == (2 * len) * crt && 2 * words == 2 * 1 * words) by (nonlinear_arith)
        requires
            words == crt * len,
    ;
    lemma_split(2 * len, 0, crt);
    assert(raw.len() == 2 * len);
    assert(digits_raw.len() == (2 * t) * len) by (nonlinear_arith)
        requires
            digits_raw.len() == (2 * t) * 1 * len,
    ;
    // the digits of the two rows
    lemma_split(t, 0, 2);
    assert((2 * t) / 2 == t) by {
        lemma_fundamental_div_mod_converse(2 * t, 2, t, 0);
    }
    assert forall|k: int, j: int| 0 <= k < t && 0 <= j < len implies #[trigger] digits_raw[0 + k
        * (2 * len) + j] == gadget_digit(raw[0 + j], bits, k) by {
        let row: int = 2 * k;
        let i: int = row * len + j;
        assert(i == 0 + k * (2 * len) + j) by (nonlinear_arith)
            requires
                i == (2 * k) * len + j,
        ;
        lemma_split(row, j, len);
        assert(0 <= i < (2 * t) * 1 * len) by (nonlinear_arith)
            requires
                i == row * len + j,
                0 <= row < 2 * t,
                0 <= j < len,
        ;
        assert(digits_raw[i] == gadget_word(params, raw, 1, 2, bits_per(params, (2 * t) / 2), i));
        assert(row / 1 == row && row % 1 == 0);
        lemma_fundamental_div_mod_converse(row, 2, k, 0);
        assert(raw_index(params, 1, 0, 0, j) == j) by (nonlinear_arith)
            requires
                raw_index(params, 1, 0, 0, j) == (0 * 1 + 0) * len + j,
        ;
    }
    assert forall|k: int, j: int| 0 <= k < t && 0 <= j < len implies #[trigger] digits_raw[len + k
        * (2 * len) + j] == gadget_digit(raw[len + j], bits, k) by {
        let row: int = 2 * k + 1;
        let i: int = row * len + j;
        assert(i == len + k * (2 * len) + j) by (nonlinear_arith)
            requires
                i == (2 * k + 1) * len + j,
        ;
        lemma_split(row, j, len);
        assert(0 <= i < (2 * t) * 1 * len) by (nonlinear_arith)
            requires
                i == row * len + j,
                0 <= row < 2 * t,
                0 <= j < len,
        ;
        assert(digits_raw[i] == gadget_word(params, raw, 1, 2, bits_per(params, (2 * t) / 2), i));
        assert(row / 1 == row && row % 1 == 0);
        lemma_fundamental_div_mod_converse(row, 2, k, 1);
        assert(raw_index(params, 1, 1, 0, j) == len + j) by (nonlinear_arith)
            requires
                raw_index(params, 1, 1, 0, j) == (1 * 1 + 0) * len + j,
        ;
    }
    assert forall|j: int| 0 <= j < len implies #[trigger] raw[0 + j] < params.modulus by {
        lemma_from_ntt_in_range(params, inp, j);
    }
    assert forall|j: int| 0 <= j < len implies #[trigger] raw[len + j] < params.modulus by {
        lemma_from_ntt_in_range(params, inp, len + j);
    }
    lemma_digits_recompose(params, raw, 0, digits_raw, 0, 2 * len, t, psi, 2 * z + 1);
    lemma_digits_recompose(params, raw, len, digits_raw, len, 2 * len, t, psi, 2 * z + 1);
    let sum_a: int = power_sum(raw, 0, psi, 0, 2 * z + 1, len);
    let sum_b: int = power_sum(raw, len, psi, 0, 2 * z + 1, len);
    // the transform of the coefficient form is the ciphertext
    lemma_to_ntt_of_from_ntt(params, inp, 2);
    lemma_ntt_index(params, 2, 1, 0, 0, n, z);
    lemma_ntt_index(params, 2, 1, 1, 0, n, z);
    let i0: int = ntt_index(params, 1, 0, 0, n, z);
    let i1: int = ntt_index(params, 1, 1, 0, n, z);
    assert(i0 / words == 0 && i1 / words == 1);
    assert(0 * len == 0 && 1 * len == len);
    let back: Seq<u64> = to_ntt_data(params, raw);
    assert(back[i0] == to_ntt_word(params, raw, i0));
    assert(back[i1] == to_ntt_word(params, raw, i1));
    let c0: int = inp[i0] as int;
    let c1: int = inp[i1] as int;
    lemma_mod_bound(sum_a, q);
    lemma_mod_bound(sum_b, q);
    assert(sum_a % q == c0 % q);
    assert(sum_b % q == c1 % q);
    // the digits are below the digit base
    lemma_div_pos_is_pos(params.modulus_log2 as int, t);
    assert forall|r: int, i: int| 0 <= r < 2 * t && 0 <= i < len implies (#[trigger] digits_raw[r
        * len + i] as int) < pow2(bits as nat) by {
        let k: int = r / 2;
        lemma_fundamental_div_mod(r, 2);
        let word: u64 = if r % 2 == 0 {
            raw[0 + i]
        } else {
            raw[len + i]
        };
        if r % 2 == 0 {
            assert(r * len + i == 0 + k * (2 * len) + i) by (nonlinear_arith)
                requires
                    r == 2 * k,
            ;
            assert(digits_raw[0 + k * (2 * len) + i] == gadget_digit(raw[0 + i], bits, k));
        } else {
            assert(r * len + i == len + k * (2 * len) + i) by (nonlinear_arith)
                requires
                    r == 2 * k + 1,
            ;
            assert(digits_raw[len + k * (2 * len) + i] == gadget_digit(raw[len + i], bits, k));
        }
        assert(digits_raw[r * len + i] == gadget_digit(word, bits, k));
        lemma_mul_nonnegative(bits, k);
        lemma_pow2_pos(bits as nat);
        lemma_pow2_pos((bits * k) as nat);
        let top: int = (word as int) / (pow2((bits * k) as nat) as int);
        lemma_mod_bound(top, pow2(bits as nat) as int);
        lemma_div_pos_is_pos(word as int, pow2((bits * k) as nat) as int);
        lemma_div_nonincreasing(word as int, pow2((bits * k) as nat) as int);
        lemma_mod_decreases(top as nat, pow2(bits as nat));
    }
}

/// With a valid key, the first `2k` columns of the conversion key times
/// the digits decrypt to the square of the key word times what the digits
/// of the first row recompose to, minus the key word times what the digits
/// of the second row recompose to.
proof fn lemma_conversion_product(
    params: &Params,
    key: Seq<u64>,
    digits_raw: Seq<u64>,
    s: Seq<u64>,
    n: int,
    z: int,
    k: int,
)
    requires
        params.wf(),
        0 <= k <= params.t_conv,
        0 <= n < params.crt_count,
        0 <= z < params.poly_len,
        digits_raw.len() == (2 * params.t_conv) * params.poly_len,
        is_conversion_key(params, key, s),
    ensures
        phase_product(
            params,
            key,
            2 * params.t_conv,
            to_ntt_data(params, digits_raw),
            1,
            0,
            s[n * params.poly_len + z] as int,
            n,
            z,
            2 * k,
        ) % params.q(n) == (((s[n * params.poly_len + z] as int) * (s[n * params.poly_len + z]
            as int)) * digit_transform_sum(
            digits_raw,
            0,
            2 * params.poly_len,
            params.poly_len as int,
            params.roots@[n] as int,
            2 * z + 1,
            bits_per(params, params.t_conv as int),
            k,
        ) - (s[n * params.poly_len + z] as int) * digit_transform_sum(
            digits_raw,
            params.poly_len as int,
            2 * params.poly_len,
            params.poly_len as int,
            params.roots@[n] as int,
            2 * z + 1,
            bits_per(params, params.t_conv as int),
            k,
        )) % params.q(n),
    decreases k,
{
    let len: int = params.poly_len as int;
    let t: int = params.t_conv as int;
    let q: int = params.q(n);
    let psi: int = params.roots@[n] as int;
    let bits: int = bits_per(params, t);
    let sv: int = s[n * len + z] as int;
    let digits: Seq<u64> = to_ntt_data(params, digits_raw);
    assert(params.residue_wf(0));
    assert(params.residue_wf(n));
    if k > 0 {
        lemma_conversion_product(params, key, digits_raw, s, n, z, k - 1);
        let j: int = k - 1;
        let weight: int = pow2((bits * j) as nat) as int;
        let ph_a: int = column_phase(params, key, 2 * t, 2 * j, sv, n, z);
        let ph_b: int = column_phase(params, key, 2 * t, 2 * j + 1, sv, n, z);
        assert(ph_a % q == (weight * (sv * sv)) % q);
        assert(ph_b % q == (-weight * sv) % q);
        assert(digits.len() == (2 * t) * 1 * params.num_words()) by (nonlinear_arith)
            requires
                digits.len() == digits_raw.len() * params.crt_count,
                digits_raw.len() == (2 * t) * len,
                params.num_words() == params.crt_count * len,
        ;
        // the words of the two digit polynomials
        lemma_ntt_index(params, 2 * t, 1, 2 * j, 0, n, z);
        lemma_ntt_index(params, 2 * t, 1, 2 * j + 1, 0, n, z);
        let ia: int = ntt_index(params, 1, 2 * j, 0, n, z);
        let ib: int = ntt_index(params, 1, 2 * j + 1, 0, n, z);
        assert((2 * j) * 1 + 0 == 2 * j && (2 * j + 1) * 1 + 0 == 2 * j + 1);
        assert((2 * j) * len == 0 + j * (2 * len) && (2 * j + 1) * len == len + j * (2 * len))
            by (nonlinear_arith);
        let sum_a: int = power_sum(digits_raw, 0 + j * (2 * len), psi, 0, 2 * z + 1, len);
        let sum_b: int = power_sum(digits_raw, len + j * (2 * len), psi, 0, 2 * z + 1, len);
        lemma_mod_bound(sum_a, q);
        lemma_mod_bound(sum_b, q);
        assert(digits[ia] == to_ntt_word(params, digits_raw, ia));
        assert(digits[ib] == to_ntt_word(params, digits_raw, ib));
        let da: int = digits[ia] as int;
        let db: int = digits[ib] as int;
        assert(da == sum_a % q);
        assert(db == sum_b % q);
        lemma_mod_twice(sum_a, q);
        lemma_mod_twice(sum_b, q);
        let p0: int = phase_product(params, key, 2 * t, digits, 1, 0, sv, n, z, 2 * j);
        let p1: int = phase_product(params, key, 2 * t, digits, 1, 0, sv, n, z, 2 * j + 1);
        let p2: int = phase_product(params, key, 2 * t, digits, 1, 0, sv, n, z, 2 * k);
        assert(p1 == p0 + ph_a * da);
        assert(2 * k - 1 == 2 * j + 1);
        assert(p2 == p1 + ph_b * db);
        let ta: int = digit_transform_sum(digits_raw, 0, 2 * len, len, psi, 2 * z + 1, bits, j);
        let tb: int = digit_transform_sum(digits_raw, len, 2 * len, len, psi, 2 * z + 1, bits, j);
        lemma_mul_congruent(ph_a, weight * (sv * sv), da, sum_a, q);
        lemma_mul_congruent(ph_b, -weight * sv, db, sum_b, q);
        lemma_add_congruent(
            p0,
            (sv * sv) * ta - sv * tb,
            ph_a * da,
            (weight * (sv * sv)) * sum_a,
            q,
        );
        lemma_add_congruent(
            p1,
            (sv * sv) * ta - sv * tb + (weight * (sv * sv)) * sum_a,
            ph_b * db,
            (-weight * sv) * sum_b,
            q,
        );
        assert((sv * sv) * ta - sv * tb + (weight * (sv * sv)) * sum_a + (-weight * sv) * sum_b
            == (sv * sv) * (ta + weight * sum_a) - sv * (tb + weight * sum_b))
            by (nonlinear_arith);
    } else {
        assert((sv * sv) * 0 - sv * 0 == 0) by (nonlinear_arith);
    }
}

/// Conversion multiplies the plaintext by minus the key. With a valid
/// conversion key, the conversion key times the full decomposition of a
/// ciphertext decrypts, at every position, to minus the word of the key
/// times what the ciphertext decrypts to.
pub proof fn lemma_conversion_phase(
    params: &Params,
    key: Seq<u64>,
    inp: Seq<u64>,
    s: Seq<u64>,
    n: int,
    z: int,
)
    requires
        params.wf(),
        inp.len() == 2 * params.num_words(),
        is_conversion_key(params, key, s),
        0 <= n < params.crt_count,
        0 <= z < params.poly_len,
    ensures
        column_phase(
            params,
            conversion_product(params, key, inp),
            1,
            0,
            s[n * params.poly_len + z] as int,
            n,
            z,
        ) % params.q(n) == (-(s[n * params.poly_len + z] as int) * column_phase(
            params,
            inp,
            1,
            0,
            s[n * params.poly_len + z] as int,
            n,
            z,
        )) % params.q(n),
{
    let len: int = params.poly_len as int;
    let t: int = params.t_conv as int;
    let q: int = params.q(n);
    let psi: int = params.roots@[n] as int;
    let bits: int = bits_per(params, t);
    let sv: int = s[n * len + z] as int;
    let digits_raw: Seq<u64> = gadget_data(params, from_ntt_data(params, inp), 2 * t, 1, 2);
    assert(params.residue_wf(n));
    lemma_conversion_parts(params, inp, n, z);
    lemma_product_phase(params, key, 2 * t, to_ntt_data(params, digits_raw), 1, 0, sv, n, z);
    let ta: int = digit_transform_sum(digits_raw, 0, 2 * len, len, psi, 2 * z + 1, bits, t);
    let tb: int = digit_transform_sum(digits_raw, len, 2 * len, len, psi, 2 * z + 1, bits, t);
    let c0: int = inp[ntt_index(params, 1, 0, 0, n, z)] as int;
    let c1: int = inp[ntt_index(params, 1, 1, 0, n, z)] as int;
    let here: int = column_phase(params, inp, 1, 0, sv, n, z);
    lemma_mul_congruent(sv * sv, sv * sv, ta, c0, q);
    lemma_mul_congruent(sv, sv, tb, c1, q);
    lemma_sub_mod_noop((sv * sv) * ta, sv * tb, q);
    lemma_sub_mod_noop((sv * sv) * c0, sv * c1, q);
    assert((sv * sv) * c0 - sv * c1 == -sv * here) by (nonlinear_arith)
        requires
            here == c1 - sv * c0,
    ;
    lemma_conversion_product(params, key, digits_raw, s, n, z, t);
}

/// Regev-to-GSW fidelity. With a valid conversion key, column pair `j` of a
/// GSW ciphertext made from the input `inp` decrypts to the plaintext of
/// `inp` times the two entries of the key vector: the copied column
/// `2j + 1` to the plaintext itself, and the converted column `2j` to minus
/// the key times the plaintext. Where input `j` encrypts `m` times the
/// `j`-th digit weight, the result is a GSW encryption of `m`.
pub proof fn lemma_gsw_columns_decrypt(
    params: &Params,
    g: Seq<u64>,
    key: Seq<u64>,
    inp: Seq<u64>,
    j: int,
    s: Seq<u64>,
    n: int,
    z: int,
)
    requires
        params.wf(),
        inp.len() == 2 * params.num_words(),
        pair_done(params, g, key, inp, j),
        is_conversion_key(params, key, s),
        0 <= n < params.crt_count,
        0 <= z < params.poly_len,
    ensures
        column_phase(
            params,
            g,
            2 * params.t_gsw,
            2 * j + 1,
            s[n * params.poly_len + z] as int,
            n,
            z,
        ) == column_phase(params, inp, 1, 0, s[n * params.poly_len + z] as int, n, z),
        column_phase(params, g, 2 * params.t_gsw, 2 * j, s[n * params.poly_len + z] as int, n, z)
            % params.q(n) == (-(s[n * params.poly_len + z] as int) * column_phase(
            params,
            inp,
            1,
            0,
            s[n * params.poly_len + z] as int,
            n,
            z,
        )) % params.q(n),
{
    let sv: int = s[n * params.poly_len + z] as int;
    lemma_gsw_phase(params, g, key, inp, j, sv, n, z);
    lemma_conversion_phase(params, key, inp, s, n, z);
    lemma_product_phase(
        params,
        key,
        2 * params.t_conv,
        to_ntt_data(
            params,
            gadget_data(params, from_ntt_data(params, inp), 2 * params.t_conv, 1, 2),
        ),
        1,
        0,
        sv,
        n,
        z,
    );
}

/// Regev-to-GSW fidelity, decrypted. Where the key is the transform of the
/// polynomial `s_raw`, the conversion key is valid and the input of column
/// pair `j` encrypts the constant `kappa`: the copied column `2j + 1`
/// decrypts to the constant `kappa` and the converted column `2j` to
/// `-kappa` times the key. The word of degree zero is `kappa` in the one and
/// `-kappa` times the constant coefficient of the key in the other, reduced
/// modulo the ciphertext modulus; both are zero for `kappa = 0`.
pub proof fn lemma_gsw_columns_decrypt_to(
    params: &Params,
    g: Seq<u64>,
    key: Seq<u64>,
    inp: Seq<u64>,
    j: int,
    s: Seq<u64>,
    s_raw: Seq<u64>,
    kappa: int,
)
    requires
        params.wf(),
        inp.len() == 2 * params.num_words(),
        pair_done(params, g, key, inp, j),
        is_conversion_key(params, key, s),
        s_raw.len() == params.poly_len,
        s == to_ntt_data(params, s_raw),
        forall|n: int, z: int|
            0 <= n < params.crt_count && 0 <= z < params.poly_len ==> #[trigger] column_phase(
                params,
                inp,
                1,
                0,
                s[n * params.poly_len + z] as int,
                n,
                z,
            ) % params.q(n) == kappa % params.q(n),
    ensures
        decrypted(params, g, 2 * params.t_gsw, 2 * j + 1, s) == monomial_poly(params, kappa, 0),
        decrypted(params, g, 2 * params.t_gsw, 2 * j, s) == scaled_poly(params, s_raw, 0, -kappa),
        decrypted(params, g, 2 * params.t_gsw, 2 * j + 1, s)[0] as int == kappa % (
        params.modulus as int),
        decrypted(params, g, 2 * params.t_gsw, 2 * j, s)[0] as int == (-kappa * (s_raw[0] as int))
            % (params.modulus as int),
{
    let len: int = params.poly_len as int;
    let words: int = params.num_words();
    let big: int = params.modulus as int;
    let copied: Seq<u64> = monomial_poly(params, kappa, 0);
    let converted: Seq<u64> = scaled_poly(params, s_raw, 0, -kappa);
    assert(params.residue_wf(0));
    lemma_mod_bound(kappa, big);
    assert forall|i: int| 0 <= i < copied.len() implies #[trigger] copied[i] < params.modulus by {}
    assert forall|i: int| 0 <= i < converted.len() implies #[trigger] converted[i]
        < params.modulus by {
        lemma_mod_bound(-kappa * (s_raw[0 + i] as int), big);
    }
    assert(s.len() == words) by (nonlinear_arith)
        requires
            s.len() == s_raw.len() * params.crt_count,
            s_raw.len() == len,
            words == params.crt_count * len,
    ;
    assert forall|n: int, z: int|
        0 <= n < params.crt_count && 0 <= z < params.poly_len implies #[trigger] column_phase(
        params,
        g,
        2 * params.t_gsw,
        2 * j + 1,
        s[n * len + z] as int,
        n,
        z,
    ) % params.q(n) == forward_coeff(copied, 0, len, params.roots@[n] as int, params.q(n), z)
        && column_phase(params, g, 2 * params.t_gsw, 2 * j, s[n * len + z] as int, n, z)
        % params.q(n) == forward_coeff(
        converted,
        0,
        len,
        params.roots@[n] as int,
        params.q(n),
        z,
    ) by {
        let q: int = params.q(n);
        let psi: int = params.roots@[n] as int;
        let sv: int = s[n * len + z] as int;
        assert(params.residue_wf(n));
        lemma_gsw_columns_decrypt(params, g, key, inp, j, s, n, z);
        let here: int = column_phase(params, inp, 1, 0, sv, n, z);
        assert(here % q == kappa % q);
        // the residues of the reduced coefficients
        if params.crt_count == 2 {
            assert(params.residue_wf(1));
            lemma_mul_is_commutative(params.q(0), params.q(1));
        }
        // the copied column: the transform of the constant
        lemma_single_term_sum(copied, psi, 2 * z + 1, 0, len);
        assert(((2 * z + 1) * 0) as nat == 0) by (nonlinear_arith);
        lemma_pow0(psi);
        assert(power_sum(copied, 0, psi, 0, 2 * z + 1, len) == copied[0] as int) by {
            assert((copied[0] as int) * 1 == copied[0] as int);
        }
        if params.crt_count == 1 {
            lemma_mod_twice(kappa, q);
        } else if n == 0 {
            lemma_mod_mod(kappa, params.q(0), params.q(1));
        } else {
            lemma_mod_mod(kappa, params.q(1), params.q(0));
        }
        assert((copied[0] as int) % q == kappa % q);
        // the converted column: minus kappa times the transform of the key
        lemma_ntt_index(params, 1, 1, 0, 0, n, z);
        let idx: int = ntt_index(params, 1, 0, 0, n, z);
        assert(idx == n * len + z) by (nonlinear_arith)
            requires
                idx == (0 * 1 + 0) * words + n * len + z,
        ;
        assert(1 * 1 * words == words) by (nonlinear_arith);
        assert(s[idx] == to_ntt_word(params, s_raw, idx));
        assert((idx / words) * len == 0) by (nonlinear_arith)
            requires
                idx / words == 0,
        ;
        let key_sum: int = power_sum(s_raw, 0, psi, 0, 2 * z + 1, len);
        lemma_mod_bound(key_sum, q);
        assert(sv == key_sum % q);
        assert forall|i: int| 0 <= i < len implies (#[trigger] converted[i] as int) % q == (-kappa
            * (s_raw[0 + i] as int)) % q by {
            let x: int = -kappa * (s_raw[0 + i] as int);
            lemma_mod_bound(x, big);
            if params.crt_count == 1 {
                lemma_mod_twice(x, q);
            } else if n == 0 {
                lemma_mod_mod(x, params.q(0), params.q(1));
            } else {
                lemma_mod_mod(x, params.q(1), params.q(0));
            }
        }
        lemma_sum_scales(converted, s_raw, 0, -kappa, psi, 2 * z + 1, q, len);
        lemma_mod_twice(key_sum, q);
        lemma_sub_mod_noop(0, sv, q);
        lemma_sub_mod_noop(0, key_sum, q);
        lemma_mul_congruent(-sv, -key_sum, here, kappa, q);
        assert((-key_sum) * kappa == -kappa * key_sum) by (nonlinear_arith);
    }
    assert forall|n: int, z: int|
        0 <= n < params.crt_count && 0 <= z < params.poly_len implies #[trigger] column_phase(
        params,
        g,
        2 * params.t_gsw,
        2 * j,
        s[n * len + z] as int,
        n,
        z,
    ) % params.q(n) == forward_coeff(
        converted,
        0,
        len,
        params.roots@[n] as int,
        params.q(n),
        z,
    ) by {
        assert(column_phase(params, g, 2 * params.t_gsw, 2 * j + 1, s[n * len + z] as int, n, z)
            % params.q(n) == forward_coeff(
            copied,
            0,
            len,
            params.roots@[n] as int,
            params.q(n),
            z,
        ));
    }
    lemma_decrypts_to(params, g, 2 * params.t_gsw, 2 * j + 1, s, copied);
    lemma_decrypts_to(params, g, 2 * params.t_gsw, 2 * j, s, converted);
}

} // verus!
