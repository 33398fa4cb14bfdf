//! What coefficient expansion does to plaintexts: with valid keys, one
//! expansion of a ciphertext adds to its plaintext the image of the
//! plaintext under the automorphism.

use vstd::prelude::*;
use vstd::arithmetic::div_mod::*;
use vstd::arithmetic::mul::*;
use vstd::arithmetic::power2::*;
use crate::arith::{lemma_add_congruent, lemma_mul_congruent};
use crate::decrypt::{decrypted, decrypted_ntt};
use vstd::arithmetic::power::*;
use crate::evaluation::{
    digit_transform_sum, lemma_digits_recompose, lemma_image_point, lemma_point_is_root,
    lemma_pow_same_class, lemma_slot_image, lemma_sum_same, lemma_transform_of_image, slot_image,
};
use crate::gadget::{bits_per, gadget_data, gadget_digit, gadget_word};
use crate::ntt::{forward_coeff, inverse_coeff, power_sum};
use crate::params::{is_two_power, Params};
use crate::poly::{
    automorph_coeff, automorph_data, automorph_word, column_phase, crt_compose, from_ntt_data,
    from_ntt_word, lemma_div_lt, lemma_ntt_index, lemma_split, ntt_index, phase_product,
    lemma_ntt_coords, position_of, raw_index, residue_of, scalar_multiply_data,
    scalar_multiply_word, to_ntt_data, to_ntt_word, PolyMatrixNTT,
};
use crate::round_trip::{
    lemma_from_ntt_of_to_ntt, lemma_pow_minus_one, lemma_to_ntt_of_from_ntt,
};
use crate::server::{
    expand_ct, expansion, expansion_round, expansion_step, lemma_expand_phase, skipped,
};

verus! {

/// The key `w`, a `2 x dim` matrix, switches to the key whose transform is
/// `s` from its image under `x -> x^t`: under `s`, column `k` decrypts, at
/// every position, to minus the digit weight `2^(bits k)` times the word of
/// `s` at the image of the position.
pub open spec fn is_expansion_key(
    params: &Params,
    w: Seq<u64>,
    dim: int,
    s: Seq<u64>,
    t: int,
) -> bool {
    forall|k: int, n: int, z: int|
        0 <= k < dim && 0 <= n < params.crt_count && 0 <= z < params.poly_len
            ==> #[trigger] column_phase(
            params,
            w,
            dim,
            k,
            s[n * params.poly_len + z] as int,
            n,
            z,
        ) % params.q(n) == (-(pow2((bits_per(params, dim) * k) as nat) as int) * (s[n
            * params.poly_len + slot_image(params.poly_len as int, t, z)] as int)) % params.q(n)
}

/// Every coefficient that the inverse transform gives lies below the
/// ciphertext modulus.
pub proof fn lemma_from_ntt_in_range(params: &Params, x: Seq<u64>, i: int)
    requires
        params.wf(),
        0 <= i < from_ntt_data(params, x).len(),
    ensures
        from_ntt_data(params, x)[i] < params.modulus,
{
    let len: int = params.poly_len as int;
    let base: int = (i / len) * params.num_words();
    assert(params.residue_wf(0));
    let x0: int = inverse_coeff(
        x,
        base,
        len,
        params.inv_roots@[0] as int,
        params.inv_poly_len@[0] as int,
        params.q(0),
        i % len,
    );
    lemma_mod_bound(
        (params.inv_poly_len@[0] as int) * power_sum(
            x,
            base,
            params.inv_roots@[0] as int,
            i % len,
            2 * (i % len),
            len,
        ),
        params.q(0),
    );
    assert(from_ntt_data(params, x)[i] == from_ntt_word(params, x, i));
    if params.crt_count == 2 {
        assert(params.residue_wf(1));
        let x1: int = inverse_coeff(
            x,
            base + len,
            len,
            params.inv_roots@[1] as int,
            params.inv_poly_len@[1] as int,
            params.q(1),
            i % len,
        );
        let h: int = ((x1 + params.q(1) - x0 % params.q(1)) * (params.crt_inv as int)) % params.q(
            1,
        );
        lemma_mod_bound(
            (x1 + params.q(1) - x0 % params.q(1)) * (params.crt_inv as int),
            params.q(1),
        );
        assert(0 <= x0 + params.q(0) * h < params.q(0) * params.q(1)) by (nonlinear_arith)
            requires
                0 <= x0 < params.q(0),
                0 <= h < params.q(1),
        ;
        assert(crt_compose(params, x0, x1) == x0 + params.q(0) * h);
    }
}

/// The image of a polynomial with coefficients below `q` has coefficients
/// below `q`.
pub proof fn lemma_automorph_in_range(
    a: Seq<u64>,
    off: int,
    len: int,
    t: int,
    q: u64,
    k: int,
    i: int,
)
    requires
        q >= 1,
        len >= 1,
        0 <= i,
        forall|j: int| 0 <= j < i ==> #[trigger] a[off + j] < q,
    ensures
        automorph_coeff(a, off, len, t, q, k, i) < q,
    decreases i,
{
    if i > 0 {
        lemma_automorph_in_range(a, off, len, t, q, k, i - 1);
        assert(a[off + (i - 1)] < q);
        lemma_mod_bound(a[off + i - 1] as int, q as int);
    }
}

/// The parts of the phase of an expanded ciphertext, whatever the key: the
/// phase of the ciphertext, the second row of the ciphertext at the image
/// of the position, and the key times the digits, which recompose to the
/// first row at the image of the position and lie below the digit base.
pub proof fn lemma_expansion_phase_parts(
    params: &Params,
    ct: Seq<u64>,
    w: Seq<u64>,
    dim: int,
    t: int,
    s: Seq<u64>,
    n: int,
    z: int,
)
    requires
        params.wf(),
        ct.len() == 2 * params.num_words(),
        dim >= 1,
        t >= 1,
        t % 2 == 1,
        0 <= n < params.crt_count,
        0 <= z < params.poly_len,
    ensures
        ({
            let len: int = params.poly_len as int;
            let zi: int = slot_image(len, t, z);
            let digits_raw: Seq<u64> = gadget_data(
                params,
                automorph_data(params, from_ntt_data(params, ct), t),
                dim,
                1,
                1,
            );
            let i0: int = ntt_index(params, 1, 0, 0, n, zi);
            let i1: int = ntt_index(params, 1, 1, 0, n, zi);
            &&& 0 <= zi < len
            &&& digits_raw.len() == dim * len
            &&& forall|k: int, j: int|
                0 <= k < dim && 0 <= j < len ==> (#[trigger] digits_raw[k * len + j] as int) < pow2(
                    bits_per(params, dim) as nat,
                )
            &&& column_phase(
                params,
                expand_ct(params, ct, w, dim, t),
                1,
                0,
                s[n * len + z] as int,
                n,
                z,
            ) % params.q(n) == (column_phase(params, ct, 1, 0, s[n * len + z] as int, n, z) + (
            ct[i1] as int) + phase_product(
                params,
                w,
                dim,
                to_ntt_data(params, digits_raw),
                1,
                0,
                s[n * len + z] as int,
                n,
                z,
                dim,
            )) % params.q(n)
            &&& digit_transform_sum(
                digits_raw,
                0,
                len,
                len,
                params.roots@[n] as int,
                2 * z + 1,
                bits_per(params, dim),
                dim,
            ) % params.q(n) == (ct[i0] as int) % params.q(n)
            &&& column_phase(params, ct, 1, 0, s[n * len + zi] as int, n, zi) == (ct[i1] as int)
                - (s[n * len + zi] as int) * (ct[i0] as int)
        }),
{
    let len: int = params.poly_len as int;
    let words: int = params.num_words();
    let crt: int = params.crt_count as int;
    let q: int = params.q(n);
    let psi: int = params.roots@[n] as int;
    let bits: int = bits_per(params, dim);
    let zi: int = slot_image(len, t, z);
    let sv: int = s[n * len + z] as int;
    let sigma: int = s[n * len + zi] as int;
    let raw: Seq<u64> = from_ntt_data(params, ct);
    let image: Seq<u64> = automorph_data(params, raw, t);
    let digits_raw: Seq<u64> = gadget_data(params, image, dim, 1, 1);
    let digits: Seq<u64> = to_ntt_data(params, digits_raw);
    let sub: Seq<u64> = image.subrange(len, 2 * len);
    let row1: Seq<u64> = to_ntt_data(params, sub);
    assert(params.residue_wf(0));
    assert(params.residue_wf(n));
    lemma_slot_image(len, t, z);
    assert(2 * words == (2 * len) * crt && words >= len && 2 * words == 2 * 1 * words)
        by (nonlinear_arith)
        requires
            words == crt * len,
            crt >= 1,
            len >= 1,
    ;
    lemma_split(2 * len, 0, crt);
    assert(raw.len() == 2 * len);
    assert(image.len() == 2 * len);
    assert(digits_raw.len() == dim * len) by (nonlinear_arith)
        requires
            digits_raw.len() == dim * 1 * len,
    ;
    lemma_expand_phase(params, ct, w, dim, t, sv, n, z);
    // the two polynomials of the image
    assert forall|k: int| 0 <= k < len implies #[trigger] image[0 + k] == automorph_coeff(
        raw,
        0,
        len,
        t,
        params.modulus,
        k,
        len,
    ) by {
        lemma_split(0, k, len);
        assert(0 * len + k == k);
        assert(0 * len == 0);
        assert(image[k] == automorph_word(params, raw, t, k));
    }
    assert forall|k: int| 0 <= k < len implies #[trigger] image[len + k] == automorph_coeff(
        raw,
        len,
        len,
        t,
        params.modulus,
        k,
        len,
    ) by {
        lemma_split(1, k, len);
        assert(1 * len + k == len + k);
        assert(1 * len == len);
        assert(image[len + k] == automorph_word(params, raw, t, len + k));
    }
    // every coefficient of the first polynomial of the image is in range
    assert forall|j: int| 0 <= j < len implies #[trigger] image[0 + j] < params.modulus by {
        assert forall|i: int| 0 <= i < len implies #[trigger] raw[0 + i] < params.modulus by {
            lemma_from_ntt_in_range(params, ct, i);
        }
        lemma_automorph_in_range(raw, 0, len, t, params.modulus, j, len);
    }
    // the digits of the first polynomial
    assert forall|k: int, j: int| 0 <= k < dim && 0 <= j < len implies #[trigger] digits_raw[0 + k
        * len + j] == gadget_digit(image[0 + j], bits, k) by {
        let i: int = k * len + j;
        lemma_split(k, j, len);
        assert(0 <= i < dim * len) by (nonlinear_arith)
            requires
                i == k * len + j,
                0 <= k < dim,
                0 <= j < len,
        ;
        assert(digits_raw[i] == gadget_word(params, image, 1, 1, bits_per(params, dim / 1), i));
        assert(k / 1 == k && k % 1 == 0);
        assert(raw_index(params, 1, 0, 0, j) == j) by (nonlinear_arith)
            requires
                raw_index(params, 1, 0, 0, j) == (0 * 1 + 0) * len + j,
        ;
    }
    lemma_digits_recompose(params, image, 0, digits_raw, 0, len, dim, psi, 2 * z + 1);
    let pp: int = phase_product(params, w, dim, digits, 1, 0, sv, n, z, dim);
    let first: int = power_sum(image, 0, psi, 0, 2 * z + 1, len);
    // the transform of the image is the transform with its positions moved
    lemma_transform_of_image(params, n, raw, 0, t, image, 0, z);
    lemma_transform_of_image(params, n, raw, len, t, image, len, z);
    // and the transform of the coefficient form is the ciphertext
    lemma_to_ntt_of_from_ntt(params, ct, 2);
    lemma_ntt_index(params, 2, 1, 0, 0, n, zi);
    lemma_ntt_index(params, 2, 1, 1, 0, n, zi);
    let i0: int = ntt_index(params, 1, 0, 0, n, zi);
    let i1: int = ntt_index(params, 1, 1, 0, n, zi);
    assert(i0 / words == 0 && i1 / words == 1);
    assert(0 * len == 0 && 1 * len == len);
    let back: Seq<u64> = to_ntt_data(params, raw);
    assert(back[i0] == to_ntt_word(params, raw, i0));
    assert(back[i1] == to_ntt_word(params, raw, i1));
    let c0: int = ct[i0] as int;
    let c1: int = ct[i1] as int;
    let f0: int = forward_coeff(raw, 0, len, psi, q, zi);
    let f1: int = forward_coeff(raw, len, len, psi, q, zi);
    lemma_mod_bound(power_sum(raw, 0, psi, 0, 2 * zi + 1, len), q);
    lemma_mod_bound(power_sum(raw, len, psi, 0, 2 * zi + 1, len), q);
    assert(f0 == c0 % q);
    assert(f1 == c1 % q);
    // the second row of the image
    lemma_ntt_index(params, 1, 1, 0, 0, n, z);
    let ir: int = ntt_index(params, 1, 0, 0, n, z);
    assert(ir == n * len + z) by (nonlinear_arith)
        requires
            ir == (0 * 1 + 0) * words + n * len + z,
    ;
    assert(row1.len() == 1 * 1 * words) by (nonlinear_arith)
        requires
            row1.len() == sub.len() * crt,
            sub.len() == len,
            words == crt * len,
    ;
    assert(ir / words == 0);
    assert(row1[ir] == to_ntt_word(params, sub, ir));
    assert forall|j: int| 0 <= j < len implies #[trigger] sub[0 + j] == image[len + j] by {}
    lemma_sum_same(sub, 0, image, len, psi, 0, 2 * z + 1, len);
    lemma_mod_bound(power_sum(image, len, psi, 0, 2 * z + 1, len), q);
    let r: int = row1[n * len + z] as int;
    assert(r == forward_coeff(image, len, len, psi, q, z));
    assert(r == f1);
    // together
    assert(first % q == f0);
    lemma_mod_twice(c0, q);
    lemma_mod_twice(c1, q);
    let here: int = column_phase(params, ct, 1, 0, sv, n, z);
    lemma_add_congruent(here + pp, here + pp, r, c1, q);
    assert(here + r + pp == (here + pp) + r && here + c1 + pp == (here + pp) + c1);
    // the digits are below the digit base
    lemma_div_pos_is_pos(params.modulus_log2 as int, dim);
    assert forall|k: int, j: int| 0 <= k < dim && 0 <= j < len implies (#[trigger] digits_raw[k
        * len + j] as int) < pow2(bits as nat) by {
        assert(digits_raw[0 + k * len + j] == gadget_digit(image[0 + j], bits, k));
        lemma_mul_nonnegative(bits, k);
        lemma_pow2_pos(bits as nat);
        lemma_pow2_pos((bits * k) as nat);
        let top: int = (image[0 + j] as int) / (pow2((bits * k) as nat) as int);
        lemma_mod_bound(top, pow2(bits as nat) as int);
        lemma_div_pos_is_pos(image[0 + j] as int, pow2((bits * k) as nat) as int);
        lemma_div_nonincreasing(image[0 + j] as int, pow2((bits * k) as nat) as int);
        lemma_mod_decreases(top as nat, pow2(bits as nat));
    }
}

/// With a valid key, the part of an expanded ciphertext that comes from the
/// key decrypts to minus the key word at the image position times what the
/// digits recompose to.
proof fn lemma_key_product(
    params: &Params,
    w: Seq<u64>,
    dim: int,
    digits_raw: Seq<u64>,
    s: Seq<u64>,
    t: int,
    n: int,
    z: int,
    k: int,
)
    requires
        params.wf(),
        0 <= k <= dim,
        0 <= n < params.crt_count,
        0 <= z < params.poly_len,
        digits_raw.len() == dim * params.poly_len,
        is_expansion_key(params, w, dim, s, t),
    ensures
        phase_product(
            params,
            w,
            dim,
            to_ntt_data(params, digits_raw),
            1,
            0,
            s[n * params.poly_len + z] as int,
            n,
            z,
            k,
        ) % params.q(n) == (-(s[n * params.poly_len + slot_image(params.poly_len as int, t, z)]
            as int) * digit_transform_sum(
            digits_raw,
            0,
            params.poly_len as int,
            params.poly_len as int,
            params.roots@[n] as int,
            2 * z + 1,
            bits_per(params, dim),
            k,
        )) % params.q(n),
    decreases k,
{
    let len: int = params.poly_len as int;
    let q: int = params.q(n);
    let psi: int = params.roots@[n] as int;
    let bits: int = bits_per(params, dim);
    let sv: int = s[n * len + z] as int;
    let sigma: int = s[n * len + slot_image(len, t, z)] as int;
    let digits: Seq<u64> = to_ntt_data(params, digits_raw);
    assert(params.residue_wf(0));
    assert(params.residue_wf(n));
    if k > 0 {
        lemma_key_product(params, w, dim, digits_raw, s, t, n, z, k - 1);
        let j: int = k - 1;
        let weight: int = pow2((bits * j) as nat) as int;
        let ph: int = column_phase(params, w, dim, j, sv, n, z);
        assert(ph % q == (-weight * sigma) % q);
        // the word of the digits is the transform of the digit polynomial
        lemma_ntt_index(params, dim, 1, j, 0, n, z);
        let idx: int = ntt_index(params, 1, j, 0, n, z);
        assert(j * 1 + 0 == j);
        let total: int = power_sum(digits_raw, j * len, psi, 0, 2 * z + 1, len);
        lemma_mod_bound(total, q);
        assert(digits.len() == dim * 1 * params.num_words()) by (nonlinear_arith)
            requires
                digits.len() == digits_raw.len() * params.crt_count,
                digits_raw.len() == dim * len,
                params.num_words() == params.crt_count * len,
        ;
        assert(digits[idx] == to_ntt_word(params, digits_raw, idx));
        assert(digits[idx] as int == total % q);
        let dv: int = digits[idx] as int;
        let before_p: int = phase_product(params, w, dim, digits, 1, 0, sv, n, z, k - 1);
        let before_d: int = digit_transform_sum(
            digits_raw,
            0,
            len,
            len,
            psi,
            2 * z + 1,
            bits,
            k - 1,
        );
        assert(0 + j * len == j * len);
        lemma_mod_twice(total, q);
        lemma_mul_congruent(ph, -weight * sigma, dv, total, q);
        lemma_add_congruent(before_p, -sigma * before_d, ph * dv, (-weight * sigma) * total, q);
        assert(-sigma * before_d + (-weight * sigma) * total == -sigma * (before_d + weight
            * total)) by (nonlinear_arith);
    } else {
        assert(-sigma * 0 == 0);
    }
}

/// One expansion adds the image. With a valid key for `x -> x^t`, `t`
/// odd, the expanded ciphertext decrypts at every position to what the
/// ciphertext decrypts to there plus what it decrypts to at the image of
/// the position: its plaintext becomes the plaintext plus the image of the
/// plaintext under the automorphism.
pub proof fn lemma_expansion_adds_image(
    params: &Params,
    ct: Seq<u64>,
    w: Seq<u64>,
    dim: int,
    t: int,
    s: Seq<u64>,
    n: int,
    z: int,
)
    requires
        params.wf(),
        ct.len() == 2 * params.num_words(),
        dim >= 1,
        t >= 1,
        t % 2 == 1,
        is_expansion_key(params, w, dim, s, t),
        0 <= n < params.crt_count,
        0 <= z < params.poly_len,
    ensures
        ({
            let len: int = params.poly_len as int;
            let zi: int = slot_image(len, t, z);
            column_phase(
                params,
                expand_ct(params, ct, w, dim, t),
                1,
                0,
                s[n * len + z] as int,
                n,
                z,
            ) % params.q(n) == (column_phase(params, ct, 1, 0, s[n * len + z] as int, n, z)
                + column_phase(params, ct, 1, 0, s[n * len + zi] as int, n, zi)) % params.q(n)
        }),
{
    let len: int = params.poly_len as int;
    let q: int = params.q(n);
    let zi: int = slot_image(len, t, z);
    let sv: int = s[n * len + z] as int;
    let sigma: int = s[n * len + zi] as int;
    let digits_raw: Seq<u64> = gadget_data(
        params,
        automorph_data(params, from_ntt_data(params, ct), t),
        dim,
        1,
        1,
    );
    assert(params.residue_wf(n));
    lemma_expansion_phase_parts(params, ct, w, dim, t, s, n, z);
    lemma_key_product(params, w, dim, digits_raw, s, t, n, z, dim);
    let c0: int = ct[ntt_index(params, 1, 0, 0, n, zi)] as int;
    let c1: int = ct[ntt_index(params, 1, 1, 0, n, zi)] as int;
    let here: int = column_phase(params, ct, 1, 0, sv, n, z);
    let there: int = column_phase(params, ct, 1, 0, sigma, n, zi);
    let pp: int = phase_product(
        params,
        w,
        dim,
        to_ntt_data(params, digits_raw),
        1,
        0,
        sv,
        n,
        z,
        dim,
    );
    let dts: int = digit_transform_sum(
        digits_raw,
        0,
        len,
        len,
        params.roots@[n] as int,
        2 * z + 1,
        bits_per(params, dim),
        dim,
    );
    lemma_mul_congruent(-sigma, -sigma, dts, c0, q);
    lemma_add_congruent(here + c1, here + c1, pp, -sigma * c0, q);
    assert(here + c1 + pp == (here + c1) + pp);
    assert((here + c1) + (-sigma * c0) == here + there) by (nonlinear_arith)
        requires
            there == c1 - sigma * c0,
    ;
}

/// The exponent, below `2 * len`, of the monomial that position `k` holds
/// while the query selects coefficient `target`.
pub open spec fn level_exponent(len: int, target: int, k: int) -> int {
    (target - k) % (2 * len)
}

/// The coefficient that position `k` holds after `l` rounds: `2^l` times
/// the scale `c` where `k` is `target` modulo `2^l`, and zero elsewhere.
pub open spec fn level_coefficient(c: int, target: int, l: int, k: int) -> int {
    if (target - k) % (pow2(l as nat) as int) == 0 {
        (pow2(l as nat) as int) * c
    } else {
        0
    }
}

/// The ciphertext `ct` is at level `l` for position `k`: under the key
/// whose transform is `s` it decrypts, at every position of the transform,
/// to the value there of the level coefficient times `x` to the level
/// exponent.
pub open spec fn at_level(
    params: &Params,
    ct: Seq<u64>,
    s: Seq<u64>,
    c: int,
    target: int,
    l: int,
    k: int,
) -> bool {
    forall|n: int, z: int|
        0 <= n < params.crt_count && 0 <= z < params.poly_len ==> #[trigger] column_phase(
            params,
            ct,
            1,
            0,
            s[n * params.poly_len + z] as int,
            n,
            z,
        ) % params.q(n) == (level_coefficient(c, target, l, k) * pow(
            pow(params.roots@[n] as int, (2 * z + 1) as nat),
            level_exponent(params.poly_len as int, target, k) as nat,
        )) % params.q(n)
}

/// A power of two that is at most half a power of two `len` divides it
/// with an even quotient.
pub proof fn lemma_two_power_divides(len: int, r: int)
    requires
        is_two_power(len),
        r >= 0,
        2 * pow2(r as nat) <= len,
    ensures
        len % (pow2(r as nat) as int) == 0,
        (len / (pow2(r as nat) as int)) % 2 == 0,
        len / (pow2(r as nat) as int) >= 2,
    decreases r,
{
    lemma_pow2_pos(r as nat);
    let p: int = pow2(r as nat) as int;
    if r == 0 {
        lemma2_to64();
        assert(p == 1);
        assert(len >= 2);
        assert(len % 2 == 0);
    } else {
        lemma_pow2_unfold(r as nat);
        let half: int = len / 2;
        let ph: int = pow2((r - 1) as nat) as int;
        assert(p == 2 * ph);
        assert(len >= 2 && len % 2 == 0 && is_two_power(half));
        lemma_two_power_divides(half, r - 1);
        lemma_fundamental_div_mod(half, ph);
        let quo: int = half / ph;
        assert(len == p * quo) by (nonlinear_arith)
            requires
                len == 2 * half,
                half == ph * quo + 0,
                p == 2 * ph,
        ;
        lemma_fundamental_div_mod_converse(len, p, quo, 0);
    }
}

/// The signal of an expansion: at every position, the value of the level
/// monomial plus its value at the image of the position is the value of
/// the monomial of the next level.
pub proof fn lemma_signal_step(
    params: &Params,
    n: int,
    z: int,
    c: int,
    target: int,
    r: int,
    k: int,
)
    requires
        params.wf(),
        0 <= n < params.crt_count,
        0 <= z < params.poly_len,
        r >= 0,
        2 * pow2(r as nat) <= params.poly_len,
    ensures
        ({
            let len: int = params.poly_len as int;
            let t: int = len / (pow2(r as nat) as int) + 1;
            let e: int = level_exponent(len, target, k);
            let x0: int = pow(params.roots@[n] as int, (2 * z + 1) as nat);
            let xi: int = pow(params.roots@[n] as int, (2 * slot_image(len, t, z) + 1) as nat);
            &&& t >= 1
            &&& t % 2 == 1
            &&& e >= 0
            &&& (level_coefficient(c, target, r, k) * pow(x0, e as nat) + level_coefficient(
                c,
                target,
                r,
                k,
            ) * pow(xi, e as nat)) % params.q(n) == (level_coefficient(c, target, r + 1, k) * pow(
                x0,
                e as nat,
            )) % params.q(n)
        }),
{
    let len: int = params.poly_len as int;
    let p: int = pow2(r as nat) as int;
    let t: int = len / p + 1;
    let e: int = level_exponent(len, target, k);
    let old_c: int = level_coefficient(c, target, r, k);
    let new_c: int = level_coefficient(c, target, r + 1, k);
    lemma_pow2_pos(r as nat);
    lemma_pow2_unfold((r + 1) as nat);
    lemma_two_power_divides(len, r);
    let quo: int = len / p;
    lemma_fundamental_div_mod(len, p);
    assert(len == p * quo);
    lemma_mod_bound(target - k, 2 * len);
    let q: int = params.q(n);
    let psi: int = params.roots@[n] as int;
    assert(params.residue_wf(0));
    assert(params.residue_wf(n));
    let x0: int = pow(psi, (2 * z + 1) as nat);
    let zi: int = slot_image(len, t, z);
    let xi: int = pow(psi, (2 * zi + 1) as nat);
    lemma_slot_image(len, t, z);
    lemma_point_is_root(psi, len, q, z);
    let pe: int = pow(x0, e as nat);
    let here: int = old_c * pe;
    let there: int = old_c * pow(xi, e as nat);
    lemma_small_mod(0, q as nat);
    if old_c == 0 {
        assert(0 * pe == 0);
        assert(0 * pow(xi, e as nat) == 0);
        assert(pow2((r + 1) as nat) == 2 * p);
        if (target - k) % p == 0 {
            assert(c == 0) by (nonlinear_arith)
                requires
                    p * c == 0,
                    p >= 1,
            ;
            assert((2 * p) * 0 == 0);
        } else {
            lemma_mod_mod(target - k, p, 2);
            lemma_small_mod(0, p as nat);
            assert((target - k) % (2 * p) != 0);
        }
        assert(new_c == 0);
    } else {
        assert((target - k) % p == 0);
        lemma_mod_mod(target - k, p, 2 * quo);
        assert(p * (2 * quo) == 2 * len) by (nonlinear_arith)
            requires
                len == p * quo,
        ;
        assert(e % p == 0);
        lemma_fundamental_div_mod(e, p);
        let h: int = e / p;
        lemma_div_pos_is_pos(e, p);
        assert(e == p * h);
        lemma_image_point(psi, len, q, t, z);
        lemma_pow_mod_noop(xi, e as nat, q);
        lemma_pow_mod_noop(pow(x0, t as nat), e as nat, q);
        lemma_pow_multiplies(x0, t as nat, e as nat);
        lemma_mul_nonnegative(t, e);
        lemma_mul_nonnegative(len, h);
        assert(t * e == e + len * h) by (nonlinear_arith)
            requires
                t == quo + 1,
                e == p * h,
                len == p * quo,
        ;
        assert((t as nat) * (e as nat) == (e + len * h) as nat);
        lemma_pow_adds(x0, e as nat, (len * h) as nat);
        lemma_pow_multiplies(x0, len as nat, h as nat);
        assert((len as nat) * (h as nat) == (len * h) as nat);
        lemma_pow_minus_one(pow(x0, len as nat), q, h);
        let sign: int = if h % 2 == 0 {
            1
        } else {
            q - 1
        };
        let ph: int = pow(pow(x0, len as nat), h as nat);
        assert(ph % q == sign);
        lemma_small_mod(sign as nat, q as nat);
        lemma_mul_congruent(pe, pe, ph, sign, q);
        assert(pow(xi, e as nat) % q == (pe * sign) % q);
        lemma_mul_congruent(old_c, old_c, pow(xi, e as nat), pe * sign, q);
        lemma_add_congruent(here, old_c * pe, there, old_c * (pe * sign), q);
        lemma_mod_mod(target - k, 2 * p, quo);
        assert((2 * p) * quo == 2 * len) by (nonlinear_arith)
            requires
                len == p * quo,
        ;
        assert(e % (2 * p) == (target - k) % (2 * p));
        assert(pow2((r + 1) as nat) == 2 * p);
        if h % 2 == 0 {
            lemma_fundamental_div_mod(h, 2);
            assert(e == (2 * p) * (h / 2)) by (nonlinear_arith)
                requires
                    e == p * h,
                    h == 2 * (h / 2) + 0,
            ;
            assert(e == (h / 2) * (2 * p) + 0) by (nonlinear_arith)
                requires
                    e == (2 * p) * (h / 2),
            ;
            assert(2 * p > 0);
            lemma_fundamental_div_mod_converse(e, 2 * p, h / 2, 0);
            assert(new_c == (2 * p) * c);
            assert(old_c * pe + old_c * (pe * 1) == ((2 * p) * c) * pe) by (nonlinear_arith)
                requires
                    old_c == p * c,
            ;
        } else {
            lemma_fundamental_div_mod(h, 2);
            assert(e == (2 * p) * (h / 2) + p) by (nonlinear_arith)
                requires
                    e == p * h,
                    h == 2 * (h / 2) + 1,
            ;
            assert(e == (h / 2) * (2 * p) + p) by (nonlinear_arith)
                requires
                    e == (2 * p) * (h / 2) + p,
            ;
            assert(0 <= p < 2 * p);
            lemma_fundamental_div_mod_converse(e, 2 * p, h / 2, p);
            assert(new_c == 0);
            assert(old_c * pe + old_c * (pe * (q - 1)) == q * (old_c * pe)) by (nonlinear_arith);
            lemma_mod_multiples_basic(old_c * pe, q);
            lemma_mul_is_commutative(q, old_c * pe);
            assert(0 * pe == 0);
        }
    }
}

/// Expanding a ciphertext at level `r` for position `k` brings it to level
/// `r + 1`: where `k` is `target` modulo `2^(r+1)` the plaintext doubles,
/// elsewhere it cancels against its image.
pub proof fn lemma_expand_raises_level(
    params: &Params,
    ct: Seq<u64>,
    w: Seq<u64>,
    dim: int,
    s: Seq<u64>,
    c: int,
    target: int,
    r: int,
    k: int,
)
    requires
        params.wf(),
        ct.len() == 2 * params.num_words(),
        dim >= 1,
        r >= 0,
        2 * pow2(r as nat) <= params.poly_len,
        is_expansion_key(params, w, dim, s, (params.poly_len as int) / (pow2(r as nat) as int) + 1),
        at_level(params, ct, s, c, target, r, k),
    ensures
        at_level(
            params,
            expand_ct(params, ct, w, dim, (params.poly_len as int) / (pow2(r as nat) as int) + 1),
            s,
            c,
            target,
            r + 1,
            k,
        ),
{
    let len: int = params.poly_len as int;
    let p: int = pow2(r as nat) as int;
    let t: int = len / p + 1;
    let e: int = level_exponent(len, target, k);
    let old_c: int = level_coefficient(c, target, r, k);
    let new_c: int = level_coefficient(c, target, r + 1, k);
    let new: Seq<u64> = expand_ct(params, ct, w, dim, t);
    lemma_signal_step(params, 0, 0, c, target, r, k);
    assert forall|n: int, z: int|
        0 <= n < params.crt_count && 0 <= z < params.poly_len implies #[trigger] column_phase(
        params,
        new,
        1,
        0,
        s[n * len + z] as int,
        n,
        z,
    ) % params.q(n) == (new_c * pow(pow(params.roots@[n] as int, (2 * z + 1) as nat), e as nat))
        % params.q(n) by {
        let q: int = params.q(n);
        let psi: int = params.roots@[n] as int;
        assert(params.residue_wf(n));
        let x0: int = pow(psi, (2 * z + 1) as nat);
        let zi: int = slot_image(len, t, z);
        let xi: int = pow(psi, (2 * zi + 1) as nat);
        lemma_slot_image(len, t, z);
        lemma_signal_step(params, n, z, c, target, r, k);
        lemma_expansion_adds_image(params, ct, w, dim, t, s, n, z);
        let here: int = column_phase(params, ct, 1, 0, s[n * len + z] as int, n, z);
        let there: int = column_phase(params, ct, 1, 0, s[n * len + zi] as int, n, zi);
        let pe: int = pow(x0, e as nat);
        let pxi: int = pow(xi, e as nat);
        assert(here % q == (old_c * pe) % q);
        assert(there % q == (old_c * pxi) % q);
        lemma_add_congruent(here, old_c * pe, there, old_c * pxi, q);
    }
}

/// The words of `neg1` are the transform of `-x^(len - 2^r)`, which is
/// `x^(-2^r)`.
pub open spec fn is_shift(params: &Params, neg1: Seq<u64>, r: int) -> bool {
    forall|n: int, z: int|
        0 <= n < params.crt_count && 0 <= z < params.poly_len ==> (#[trigger] neg1[n
            * params.poly_len + z] as int) % params.q(n) == (-pow(
            pow(params.roots@[n] as int, (2 * z + 1) as nat),
            (params.poly_len - pow2(r as nat)) as nat,
        )) % params.q(n)
}

/// Multiplying a ciphertext by a polynomial multiplies what it decrypts
/// to: at every position the phase of the product is the word of the
/// polynomial times the phase of the ciphertext.
pub proof fn lemma_scaled_phase(
    params: &Params,
    ct: Seq<u64>,
    a: Seq<u64>,
    sv: int,
    n: int,
    z: int,
)
    requires
        params.wf(),
        ct.len() == 2 * params.num_words(),
        0 <= n < params.crt_count,
        0 <= z < params.poly_len,
    ensures
        scalar_multiply_data(params, a, ct).len() == ct.len(),
        column_phase(params, scalar_multiply_data(params, a, ct), 1, 0, sv, n, z) % params.q(n)
            == ((a[n * params.poly_len + z] as int) * column_phase(params, ct, 1, 0, sv, n, z))
            % params.q(n),
{
    let len: int = params.poly_len as int;
    let words: int = params.num_words();
    let q: int = params.q(n);
    let new: Seq<u64> = scalar_multiply_data(params, a, ct);
    assert(params.residue_wf(n));
    assert(2 * 1 * words == 2 * words) by (nonlinear_arith);
    lemma_ntt_index(params, 2, 1, 0, 0, n, z);
    lemma_ntt_index(params, 2, 1, 1, 0, n, z);
    let i0: int = ntt_index(params, 1, 0, 0, n, z);
    let i1: int = ntt_index(params, 1, 1, 0, n, z);
    let mu: int = a[n * len + z] as int;
    let c0: int = ct[i0] as int;
    let c1: int = ct[i1] as int;
    assert(new[i0] == scalar_multiply_word(params, a, ct, i0));
    assert(new[i1] == scalar_multiply_word(params, a, ct, i1));
    lemma_mod_bound(mu * c0, q);
    lemma_mod_bound(mu * c1, q);
    assert(new[i0] as int == (mu * c0) % q);
    assert(new[i1] as int == (mu * c1) % q);
    let here: int = column_phase(params, ct, 1, 0, sv, n, z);
    assert(here == c1 - sv * c0);
    lemma_mul_mod_noop_right(sv, mu * c0, q);
    lemma_sub_mod_noop(mu * c1, sv * (mu * c0), q);
    lemma_sub_mod_noop((mu * c1) % q, sv * ((mu * c0) % q), q);
    lemma_mod_twice(mu * c1, q);
    assert(mu * c1 - sv * (mu * c0) == mu * here) by (nonlinear_arith)
        requires
            here == c1 - sv * c0,
    ;
}

/// The signal of a spread: `x^(-2^r)` times the level monomial of position
/// `j` is the level monomial of position `2^r + j`.
pub proof fn lemma_signal_spread(
    params: &Params,
    n: int,
    z: int,
    c: int,
    target: int,
    r: int,
    j: int,
)
    requires
        params.wf(),
        0 <= n < params.crt_count,
        0 <= z < params.poly_len,
        r >= 0,
        2 * pow2(r as nat) <= params.poly_len,
    ensures
        ({
            let len: int = params.poly_len as int;
            let p: int = pow2(r as nat) as int;
            let x0: int = pow(params.roots@[n] as int, (2 * z + 1) as nat);
            let e: int = level_exponent(len, target, j);
            let e2: int = level_exponent(len, target, p + j);
            &&& e >= 0
            &&& e2 >= 0
            &&& level_coefficient(c, target, r, p + j) == level_coefficient(c, target, r, j)
            &&& (pow(x0, (2 * len - p) as nat) * (level_coefficient(c, target, r, j) * pow(
                x0,
                e as nat,
            ))) % params.q(n) == (level_coefficient(c, target, r, j) * pow(x0, e2 as nat))
                % params.q(n)
            &&& pow(x0, (2 * len - p) as nat) % params.q(n) == (-pow(x0, (len - p) as nat))
                % params.q(n)
        }),
{
    let len: int = params.poly_len as int;
    let p: int = pow2(r as nat) as int;
    let q: int = params.q(n);
    let psi: int = params.roots@[n] as int;
    let e: int = level_exponent(len, target, j);
    let e2: int = level_exponent(len, target, p + j);
    let kc: int = level_coefficient(c, target, r, j);
    assert(params.residue_wf(0));
    assert(params.residue_wf(n));
    lemma_pow2_pos(r as nat);
    lemma_mod_bound(target - j, 2 * len);
    lemma_mod_bound(target - (p + j), 2 * len);
    lemma_mod_sub_multiples_vanish(target - j, p);
    assert(target - (p + j) == -p + (target - j));
    lemma_sub_mod_noop(target - j, p, 2 * len);
    lemma_small_mod(p as nat, (2 * len) as nat);
    lemma_mod_add_multiples_vanish(e - p, 2 * len);
    assert((e + 2 * len - p) % (2 * len) == e2);
    let x0: int = pow(psi, (2 * z + 1) as nat);
    lemma_point_is_root(psi, len, q, z);
    let up: int = pow(x0, (2 * len - p) as nat);
    let shifted: int = pow(x0, (len - p) as nat);
    let pe: int = pow(x0, e as nat);
    let pe2: int = pow(x0, e2 as nat);
    // x0^(2 len - p) = x0^len * x0^(len - p) = -x0^(len - p)
    lemma_pow_adds(x0, len as nat, (len - p) as nat);
    assert(len as nat + (len - p) as nat == (2 * len - p) as nat);
    lemma_small_mod((q - 1) as nat, q as nat);
    lemma_mul_congruent(pow(x0, len as nat), q - 1, shifted, shifted, q);
    assert((q - 1) * shifted == q * shifted + (-shifted)) by (nonlinear_arith);
    lemma_mod_multiples_vanish(shifted, -shifted, q);
    // x0^(2 len - p) * x0^e = x0^(e + 2 len - p), which is x0^e2
    lemma_pow_adds(x0, (2 * len - p) as nat, e as nat);
    assert((2 * len - p) as nat + e as nat == (e + 2 * len - p) as nat);
    lemma_small_mod(e2 as nat, (2 * len) as nat);
    lemma_pow_same_class(x0, len, q, e + 2 * len - p, e2);
    assert((up * pe) % q == pe2 % q);
    lemma_mul_congruent(kc, kc, up * pe, pe2, q);
    assert(up * (kc * pe) == kc * (up * pe)) by (nonlinear_arith);
}

/// Multiplying a ciphertext at level `r` for position `j` by `x^(-2^r)`
/// gives a ciphertext at level `r` for position `2^r + j`.
pub proof fn lemma_spread_keeps_level(
    params: &Params,
    ct: Seq<u64>,
    neg1: Seq<u64>,
    s: Seq<u64>,
    c: int,
    target: int,
    r: int,
    j: int,
)
    requires
        params.wf(),
        ct.len() == 2 * params.num_words(),
        r >= 0,
        2 * pow2(r as nat) <= params.poly_len,
        is_shift(params, neg1, r),
        at_level(params, ct, s, c, target, r, j),
    ensures
        scalar_multiply_data(params, neg1, ct).len() == ct.len(),
        at_level(
            params,
            scalar_multiply_data(params, neg1, ct),
            s,
            c,
            target,
            r,
            pow2(r as nat) + j,
        ),
{
    let len: int = params.poly_len as int;
    let words: int = params.num_words();
    let p: int = pow2(r as nat) as int;
    let new: Seq<u64> = scalar_multiply_data(params, neg1, ct);
    let e: int = level_exponent(len, target, j);
    let e2: int = level_exponent(len, target, p + j);
    let kc: int = level_coefficient(c, target, r, j);
    lemma_pow2_pos(r as nat);
    lemma_signal_spread(params, 0, 0, c, target, r, j);
    assert(2 * 1 * words == 2 * words) by (nonlinear_arith);
    assert forall|n: int, z: int|
        0 <= n < params.crt_count && 0 <= z < params.poly_len implies #[trigger] column_phase(
        params,
        new,
        1,
        0,
        s[n * len + z] as int,
        n,
        z,
    ) % params.q(n) == (kc * pow(pow(params.roots@[n] as int, (2 * z + 1) as nat), e2 as nat))
        % params.q(n) by {
        let q: int = params.q(n);
        let psi: int = params.roots@[n] as int;
        let sv: int = s[n * len + z] as int;
        assert(params.residue_wf(n));
        let x0: int = pow(psi, (2 * z + 1) as nat);
        lemma_signal_spread(params, n, z, c, target, r, j);
        lemma_scaled_phase(params, ct, neg1, sv, n, z);
        let mu: int = neg1[n * len + z] as int;
        let here: int = column_phase(params, ct, 1, 0, sv, n, z);
        let up: int = pow(x0, (2 * len - p) as nat);
        let pe: int = pow(x0, e as nat);
        assert(mu % q == up % q);
        assert(here % q == (kc * pe) % q);
        lemma_mul_congruent(mu, up, here, kc * pe, q);
    }
}

/// The stop rule leaves a position alone: the position is odd and the round
/// comes after the stop round.
pub open spec fn frozen(stopround: int, r: int, k: int) -> bool {
    stopround > 0 && r > stopround && k % 2 == 1
}

/// In the first `g` rounds the stop rule skips the odd positions after the
/// stop round and nothing else.
pub open spec fn only_odd_skipped(stopround: int, max_bits_to_gen_right: int, g: int) -> bool {
    forall|r: int, x: int|
        0 <= r < g && 0 <= x < 2 * pow2(r as nat) ==> (#[trigger] skipped(
            stopround,
            max_bits_to_gen_right,
            r,
            x,
        ) <==> frozen(stopround, r, x))
}

/// Where the stop round has room for `max_bits_to_gen_right` positions on
/// the right, that is where `2^stopround <= max_bits_to_gen_right`, the stop
/// rule skips the odd positions after the stop round and nothing else.
pub proof fn lemma_only_odd_skipped(stopround: int, max_bits_to_gen_right: int, g: int)
    requires
        stopround >= 0,
        pow2(stopround as nat) <= max_bits_to_gen_right,
    ensures
        only_odd_skipped(stopround, max_bits_to_gen_right, g),
{
    assert forall|r: int, x: int| 0 <= r < g && 0 <= x < 2 * pow2(r as nat) implies (
    #[trigger] skipped(stopround, max_bits_to_gen_right, r, x) <==> frozen(stopround, r, x)) by {
        if r == stopround {
            assert(x / 2 < pow2(r as nat));
        }
    }
}

/// The level that position `k` has reached after `g` rounds, or `None`
/// where no round has written it: the odd positions stay at the level that
/// follows the stop round, the others reach level `g`.
pub open spec fn level_after(stopround: int, g: int, k: int) -> Option<int> {
    if k >= pow2(g as nat) {
        None
    } else if stopround > 0 && g > stopround + 1 && k % 2 == 1 {
        if k < pow2((stopround + 1) as nat) {
            Some(stopround + 1)
        } else {
            None
        }
    } else {
        Some(g)
    }
}

/// The level that position `k` has while round `r` is at position `i`, or
/// `None` where the round has not written it so far.
pub open spec fn level_during(stopround: int, r: int, i: int, k: int) -> Option<int> {
    let p: int = pow2(r as nat) as int;
    if k >= 2 * p || frozen(stopround, r, k) || (k >= p && k - p >= i) {
        None
    } else if k < i {
        Some(r + 1)
    } else {
        Some(r)
    }
}

/// The ciphertext `ct` is a ciphertext at the given level for position
/// `k`, or, without a level, the ciphertext `orig` that was there before.
pub open spec fn holds_level(
    params: &Params,
    ct: Seq<u64>,
    orig: Seq<u64>,
    s: Seq<u64>,
    c: int,
    target: int,
    level: Option<int>,
    k: int,
) -> bool {
    match level {
        Some(l) => ct.len() == 2 * params.num_words() && at_level(params, ct, s, c, target, l, k),
        None => ct == orig,
    }
}

/// What holds of the vector while round `r` is at position `i`: every
/// position holds its level, or what it held when the round began.
pub open spec fn round_state(
    params: &Params,
    cts: Seq<Seq<u64>>,
    begin: Seq<Seq<u64>>,
    s: Seq<u64>,
    c: int,
    target: int,
    stopround: int,
    r: int,
    i: int,
) -> bool {
    &&& cts.len() == begin.len()
    &&& forall|k: int|
        0 <= k < cts.len() ==> holds_level(
            params,
            #[trigger] cts[k],
            begin[k],
            s,
            c,
            target,
            level_during(stopround, r, i, k),
            k,
        )
}

/// The keys of the first `g` rounds are valid for the key whose transform
/// is `s`: the left and right expansion keys of round `r` switch from the
/// image under `x -> x^(len / 2^r + 1)`, and `v_neg1[r]` is `x^(-2^r)`.
pub open spec fn keys_valid(
    params: &Params,
    v_w_left: Seq<PolyMatrixNTT>,
    v_w_right: Seq<PolyMatrixNTT>,
    v_neg1: Seq<PolyMatrixNTT>,
    s: Seq<u64>,
    g: int,
) -> bool {
    forall|r: int|
        0 <= r < g ==> {
            &&& is_expansion_key(
                params,
                (#[trigger] v_w_left[r]).data@,
                params.t_exp_left as int,
                s,
                (params.poly_len as int) / (pow2(r as nat) as int) + 1,
            )
            &&& is_expansion_key(
                params,
                v_w_right[r].data@,
                params.t_exp_right as int,
                s,
                (params.poly_len as int) / (pow2(r as nat) as int) + 1,
            )
            &&& is_shift(params, v_neg1[r].data@, r)
        }
}

/// Round `r` raises the level of the positions that the stop rule lets it
/// expand, position by position, and leaves the others alone.
pub proof fn lemma_round_raises_level(
    params: &Params,
    begin: Seq<Seq<u64>>,
    r: int,
    stopround: int,
    max_bits_to_gen_right: int,
    w_left: Seq<u64>,
    w_right: Seq<u64>,
    neg1: Seq<u64>,
    s: Seq<u64>,
    c: int,
    target: int,
    i: int,
)
    requires
        params.wf(),
        r >= 0,
        2 * pow2(r as nat) <= params.poly_len,
        2 * pow2(r as nat) <= begin.len(),
        0 <= i <= 2 * pow2(r as nat),
        is_expansion_key(
            params,
            w_left,
            params.t_exp_left as int,
            s,
            (params.poly_len as int) / (pow2(r as nat) as int) + 1,
        ),
        is_expansion_key(
            params,
            w_right,
            params.t_exp_right as int,
            s,
            (params.poly_len as int) / (pow2(r as nat) as int) + 1,
        ),
        is_shift(params, neg1, r),
        forall|x: int|
            0 <= x < i ==> (#[trigger] skipped(stopround, max_bits_to_gen_right, r, x) <==> frozen(
                stopround,
                r,
                x,
            )),
        forall|k: int|
            0 <= k < pow2(r as nat) && !frozen(stopround, r, k) ==> (#[trigger] begin[k]).len() == 2
                * params.num_words() && at_level(params, begin[k], s, c, target, r, k),
    ensures
        round_state(
            params,
            expansion_round(
                params,
                begin,
                r,
                stopround,
                max_bits_to_gen_right,
                w_left,
                w_right,
                neg1,
                i,
            ),
            begin,
            s,
            c,
            target,
            stopround,
            r,
            i,
        ),
    decreases i,
{
    let p: int = pow2(r as nat) as int;
    lemma_pow2_pos(r as nat);
    if i > 0 {
        lemma_round_raises_level(
            params,
            begin,
            r,
            stopround,
            max_bits_to_gen_right,
            w_left,
            w_right,
            neg1,
            s,
            c,
            target,
            i - 1,
        );
        let t: int = (params.poly_len as int) / p + 1;
        let x: int = i - 1;
        let prev: Seq<Seq<u64>> = expansion_round(
            params,
            begin,
            r,
            stopround,
            max_bits_to_gen_right,
            w_left,
            w_right,
            neg1,
            i - 1,
        );
        let next: Seq<Seq<u64>> = expansion_round(
            params,
            begin,
            r,
            stopround,
            max_bits_to_gen_right,
            w_left,
            w_right,
            neg1,
            i,
        );
        assert(skipped(stopround, max_bits_to_gen_right, r, x) <==> frozen(stopround, r, x));
        if r >= 1 {
            lemma_pow2_unfold(r as nat);
            assert(p % 2 == 0);
        } else {
            lemma2_to64();
            assert(p == 1);
        }
        if frozen(stopround, r, x) {
            assert(next == prev);
            assert forall|k: int| 0 <= k < next.len() implies holds_level(
                params,
                #[trigger] next[k],
                begin[k],
                s,
                c,
                target,
                level_during(stopround, r, i, k),
                k,
            ) by {
                assert(holds_level(
                    params,
                    prev[k],
                    begin[k],
                    s,
                    c,
                    target,
                    level_during(stopround, r, i - 1, k),
                    k,
                ));
                if k == p + x && x < p {
                    assert((p + x) % 2 == 1);
                }
            }
        } else {
            assert(next == expansion_step(params, prev, r, x, w_left, w_right, neg1));
            let spread: Seq<Seq<u64>> = if x < p {
                prev.update(p + x, scalar_multiply_data(params, neg1, prev[x]))
            } else {
                prev
            };
            assert(holds_level(
                params,
                prev[x],
                begin[x],
                s,
                c,
                target,
                level_during(stopround, r, i - 1, x),
                x,
            ));
            assert(level_during(stopround, r, i - 1, x) == Some(r));
            if x < p {
                lemma_spread_keeps_level(params, prev[x], neg1, s, c, target, r, x);
            }
            let cur: Seq<u64> = spread[x];
            assert(cur == prev[x]);
            let key: Seq<u64> = if x % 2 == 0 {
                w_left
            } else {
                w_right
            };
            let dim: int = if x % 2 == 0 {
                params.t_exp_left as int
            } else {
                params.t_exp_right as int
            };
            lemma_expand_raises_level(params, cur, key, dim, s, c, target, r, x);
            let grown: Seq<u64> = expand_ct(params, cur, key, dim, t);
            assert(next == spread.update(x, grown));
            assert(grown.len() == cur.len());
            assert forall|k: int| 0 <= k < next.len() implies holds_level(
                params,
                #[trigger] next[k],
                begin[k],
                s,
                c,
                target,
                level_during(stopround, r, i, k),
                k,
            ) by {
                assert(holds_level(
                    params,
                    prev[k],
                    begin[k],
                    s,
                    c,
                    target,
                    level_during(stopround, r, i - 1, k),
                    k,
                ));
                if k == x {
                } else if x < p && k == p + x {
                    assert(next[k] == scalar_multiply_data(params, neg1, prev[x]));
                    if r >= 1 {
                        assert((p + x) % 2 == x % 2);
                    }
                } else {
                    assert(next[k] == prev[k]);
                }
            }
        }
    } else {
        assert forall|k: int| 0 <= k < begin.len() implies holds_level(
            params,
            #[trigger] begin[k],
            begin[k],
            s,
            c,
            target,
            level_during(stopround, r, 0, k),
            k,
        ) by {}
    }
}

/// With valid keys, where the stop rule skips only the odd positions after
/// the stop round, `g` rounds bring every position to its level.
pub proof fn lemma_expansion_levels(
    params: &Params,
    start: Seq<Seq<u64>>,
    g: int,
    stopround: int,
    max_bits_to_gen_right: int,
    v_w_left: Seq<PolyMatrixNTT>,
    v_w_right: Seq<PolyMatrixNTT>,
    v_neg1: Seq<PolyMatrixNTT>,
    s: Seq<u64>,
    c: int,
    target: int,
)
    requires
        params.wf(),
        g >= 0,
        stopround >= 0,
        pow2(g as nat) <= params.poly_len,
        pow2(g as nat) <= start.len(),
        start[0].len() == 2 * params.num_words(),
        keys_valid(params, v_w_left, v_w_right, v_neg1, s, g),
        only_odd_skipped(stopround, max_bits_to_gen_right, g),
        at_level(params, start[0], s, c, target, 0, 0),
    ensures
        ({
            let fin: Seq<Seq<u64>> = expansion(
                params,
                start,
                g,
                stopround,
                max_bits_to_gen_right,
                v_w_left,
                v_w_right,
                v_neg1,
            );
            &&& fin.len() == start.len()
            &&& forall|k: int|
                0 <= k < fin.len() ==> holds_level(
                    params,
                    #[trigger] fin[k],
                    start[k],
                    s,
                    c,
                    target,
                    level_after(stopround, g, k),
                    k,
                )
        }),
    decreases g,
{
    lemma2_to64();
    if g > 0 {
        let r: int = g - 1;
        let p: int = pow2(r as nat) as int;
        lemma_pow2_unfold(g as nat);
        lemma_pow2_pos(r as nat);
        assert(pow2(g as nat) == 2 * p);
        assert(only_odd_skipped(stopround, max_bits_to_gen_right, r)) by {
            assert forall|r2: int, x: int| 0 <= r2 < r && 0 <= x < 2 * pow2(r2 as nat) implies (
            #[trigger] skipped(stopround, max_bits_to_gen_right, r2, x) <==> frozen(
                stopround,
                r2,
                x,
            )) by {
                assert(0 <= r2 < g);
            }
        }
        assert(keys_valid(params, v_w_left, v_w_right, v_neg1, s, r)) by {
            assert forall|r2: int| 0 <= r2 < r implies {
                &&& is_expansion_key(
                    params,
                    (#[trigger] v_w_left[r2]).data@,
                    params.t_exp_left as int,
                    s,
                    (params.poly_len as int) / (pow2(r2 as nat) as int) + 1,
                )
                &&& is_expansion_key(
                    params,
                    v_w_right[r2].data@,
                    params.t_exp_right as int,
                    s,
                    (params.poly_len as int) / (pow2(r2 as nat) as int) + 1,
                )
                &&& is_shift(params, v_neg1[r2].data@, r2)
            } by {
                assert(0 <= r2 < g);
            }
        }
        lemma_expansion_levels(
            params,
            start,
            r,
            stopround,
            max_bits_to_gen_right,
            v_w_left,
            v_w_right,
            v_neg1,
            s,
            c,
            target,
        );
        let prev: Seq<Seq<u64>> = expansion(
            params,
            start,
            r,
            stopround,
            max_bits_to_gen_right,
            v_w_left,
            v_w_right,
            v_neg1,
        );
        let wl: Seq<u64> = v_w_left[r].data@;
        let wr: Seq<u64> = v_w_right[r].data@;
        let ng: Seq<u64> = v_neg1[r].data@;
        // what the round needs of the positions that it reads
        assert forall|k: int| 0 <= k < p && !frozen(stopround, r, k) implies (#[trigger] prev[k]).len()
            == 2 * params.num_words() && at_level(params, prev[k], s, c, target, r, k) by {
            assert(holds_level(
                params,
                prev[k],
                start[k],
                s,
                c,
                target,
                level_after(stopround, r, k),
                k,
            ));
            assert(level_after(stopround, r, k) == Some(r));
        }
        assert forall|x: int| 0 <= x < 2 * p implies (#[trigger] skipped(
            stopround,
            max_bits_to_gen_right,
            r,
            x,
        ) <==> frozen(stopround, r, x)) by {}
        lemma_round_raises_level(
            params,
            prev,
            r,
            stopround,
            max_bits_to_gen_right,
            wl,
            wr,
            ng,
            s,
            c,
            target,
            2 * p,
        );
        let fin: Seq<Seq<u64>> = expansion(
            params,
            start,
            g,
            stopround,
            max_bits_to_gen_right,
            v_w_left,
            v_w_right,
            v_neg1,
        );
        assert(fin == expansion_round(
            params,
            prev,
            r,
            stopround,
            max_bits_to_gen_right,
            wl,
            wr,
            ng,
            2 * p,
        ));
        assert(round_state(params, fin, prev, s, c, target, stopround, r, 2 * p));
        assert forall|k: int| 0 <= k < fin.len() implies holds_level(
            params,
            #[trigger] fin[k],
            start[k],
            s,
            c,
            target,
            level_after(stopround, g, k),
            k,
        ) by {
            assert(holds_level(
                params,
                fin[k],
                prev[k],
                s,
                c,
                target,
                level_during(stopround, r, 2 * p, k),
                k,
            ));
            assert(holds_level(
                params,
                prev[k],
                start[k],
                s,
                c,
                target,
                level_after(stopround, r, k),
                k,
            ));
            if stopround > 0 && r > stopround {
                // the level after the stop round is no later than this round
                if stopround + 1 < r {
                    lemma_pow2_strictly_increases((stopround + 1) as nat, r as nat);
                }
                assert(pow2((stopround + 1) as nat) <= p);
            }
        }
    } else {
        assert forall|k: int| 0 <= k < start.len() implies holds_level(
            params,
            #[trigger] start[k],
            start[k],
            s,
            c,
            target,
            level_after(stopround, 0, k),
            k,
        ) by {}
    }
}

/// The polynomial `kappa * x^e` of the ring, for `0 <= e < 2 * poly_len`:
/// for `e` from `poly_len` on it is `-kappa * x^(e - poly_len)`.
pub open spec fn monomial_poly(params: &Params, kappa: int, e: int) -> Seq<u64> {
    let len: int = params.poly_len as int;
    let big: int = params.modulus as int;
    Seq::new(
        params.poly_len as nat,
        |j: int|
            if e < len && j == e {
                (kappa % big) as u64
            } else if e >= len && j == e - len {
                ((-kappa) % big) as u64
            } else {
                0
            },
    )
}

/// The weighted sum of a polynomial with a single coefficient is that
/// coefficient times its weight.
pub proof fn lemma_single_term_sum(m: Seq<u64>, w: int, de: int, at: int, k: int)
    requires
        0 <= at,
        0 <= k,
        de >= 0,
        forall|j: int| 0 <= j < k && j != at ==> #[trigger] m[j] == 0,
    ensures
        power_sum(m, 0, w, 0, de, k) == (if at < k {
            (m[at] as int) * pow(w, (de * at) as nat)
        } else {
            0
        }),
    decreases k,
{
    if k > 0 {
        lemma_single_term_sum(m, w, de, at, k - 1);
        assert(m[0 + k - 1] == m[k - 1]);
        assert((0 + de * (k - 1)) as nat == (de * (k - 1)) as nat);
        if at != k - 1 {
            assert(m[k - 1] == 0);
            assert(0 * pow(w, (0 + de * (k - 1)) as nat) == 0);
        }
    }
}

/// A ciphertext at a level decrypts to a monomial: the level coefficient
/// times `x` to the level exponent.
pub proof fn lemma_level_decrypts(
    params: &Params,
    ct: Seq<u64>,
    s: Seq<u64>,
    c: int,
    target: int,
    l: int,
    k: int,
)
    requires
        params.wf(),
        at_level(params, ct, s, c, target, l, k),
    ensures
        decrypted(params, ct, 1, 0, s) == monomial_poly(
            params,
            level_coefficient(c, target, l, k),
            level_exponent(params.poly_len as int, target, k),
        ),
{
    let len: int = params.poly_len as int;
    let words: int = params.num_words();
    let big: int = params.modulus as int;
    let kappa: int = level_coefficient(c, target, l, k);
    let e: int = level_exponent(len, target, k);
    let m: Seq<u64> = monomial_poly(params, kappa, e);
    let at: int = if e < len {
        e
    } else {
        e - len
    };
    lemma_mod_bound(target - k, 2 * len);
    lemma_mod_bound(kappa, big);
    lemma_mod_bound(-kappa, big);
    assert(params.residue_wf(0));
    let dec: Seq<u64> = decrypted_ntt(params, ct, 1, 0, s);
    let want: Seq<u64> = to_ntt_data(params, m);
    assert(want.len() == words) by (nonlinear_arith)
        requires
            want.len() == m.len() * params.crt_count,
            m.len() == len,
            words == params.crt_count * len,
    ;
    assert forall|idx: int| 0 <= idx < words implies dec[idx] == want[idx] by {
        assert(1 * 1 * words == words) by (nonlinear_arith);
        lemma_ntt_coords(params, 1, 1, idx);
        let n: int = residue_of(params, idx);
        let z: int = position_of(params, idx);
        let q: int = params.q(n);
        let psi: int = params.roots@[n] as int;
        assert(params.residue_wf(n));
        lemma_div_lt(idx, 1, words);
        assert(idx / words == 0);
        assert(ntt_index(params, 1, 0, 0, n, z) == idx);
        assert(idx == n * len + z) by (nonlinear_arith)
            requires
                ntt_index(params, 1, 0, 0, n, z) == (0 * 1 + 0) * words + n * len + z,
                ntt_index(params, 1, 0, 0, n, z) == idx,
        ;
        assert(s[n * len + z] == s[idx]);
        let x0: int = pow(psi, (2 * z + 1) as nat);
        lemma_point_is_root(psi, len, q, z);
        let ph: int = column_phase(params, ct, 1, 0, s[n * len + z] as int, n, z);
        assert(ph % q == (kappa * pow(x0, e as nat)) % q);
        lemma_mod_bound(ph, q);
        // the transform of the monomial
        assert(want[idx] == to_ntt_word(params, m, idx));
        assert((idx / words) * len == 0) by (nonlinear_arith)
            requires
                idx / words == 0,
        ;
        lemma_single_term_sum(m, psi, 2 * z + 1, at, len);
        lemma_mul_nonnegative(2 * z + 1, at);
        lemma_pow_multiplies(psi, (2 * z + 1) as nat, at as nat);
        assert(((2 * z + 1) as nat) * (at as nat) == ((2 * z + 1) * at) as nat);
        let pa: int = pow(x0, at as nat);
        let coeff: int = m[at] as int;
        assert(power_sum(m, 0, psi, 0, 2 * z + 1, len) == coeff * pa);
        lemma_mod_bound(coeff * pa, q);
        // the residue of the coefficient modulo q
        let signed: int = if e < len {
            kappa
        } else {
            -kappa
        };
        assert(coeff == signed % big);
        if params.crt_count == 1 {
            lemma_mod_twice(signed, q);
        } else {
            assert(params.residue_wf(1));
            if n == 0 {
                lemma_mod_mod(signed, params.q(0), params.q(1));
            } else {
                lemma_mod_mod(signed, params.q(1), params.q(0));
                lemma_mul_is_commutative(params.q(0), params.q(1));
            }
        }
        assert(coeff % q == signed % q);
        lemma_mul_congruent(coeff, signed, pa, pa, q);
        if e >= len {
            // x0^e = x0^at * x0^len = -x0^at
            lemma_pow_adds(x0, at as nat, len as nat);
            assert(at as nat + len as nat == e as nat);
            lemma_small_mod((q - 1) as nat, q as nat);
            lemma_mul_congruent(pa, pa, pow(x0, len as nat), q - 1, q);
            assert(pa * (q - 1) == q * pa + (-pa)) by (nonlinear_arith);
            lemma_mod_multiples_vanish(pa, -pa, q);
            lemma_mul_congruent(kappa, kappa, pow(x0, e as nat), -pa, q);
            assert(kappa * (-pa) == (-kappa) * pa) by (nonlinear_arith);
        }
    }
    assert(dec =~= want);
    assert(m.len() == 1 * len);
    assert forall|j: int| 0 <= j < m.len() implies #[trigger] m[j] < params.modulus by {}
    lemma_from_ntt_of_to_ntt(params, m, 1);
}

/// Expansion one-hotness. Where the ciphertext at position 0 decrypts to
/// `c * x^target`, the keys are valid, `2^g` does not exceed the ring
/// degree and the stop rule skips only the odd positions after the stop
/// round: after `g` rounds, of the first `2^g` ciphertexts, every one that a
/// round has written decrypts to a polynomial whose coefficient of degree
/// zero is `2^l * c` at position `target`, with `l` the level of the
/// position, and zero at every other position; and every one that no round
/// has written is what it was.
pub proof fn lemma_expansion_one_hot(
    params: &Params,
    start: Seq<Seq<u64>>,
    g: int,
    stopround: int,
    max_bits_to_gen_right: int,
    v_w_left: Seq<PolyMatrixNTT>,
    v_w_right: Seq<PolyMatrixNTT>,
    v_neg1: Seq<PolyMatrixNTT>,
    s: Seq<u64>,
    c: int,
    target: int,
)
    requires
        params.wf(),
        g >= 0,
        stopround >= 0,
        pow2(g as nat) <= params.poly_len,
        pow2(g as nat) <= start.len(),
        0 <= target < pow2(g as nat),
        start[0].len() == 2 * params.num_words(),
        keys_valid(params, v_w_left, v_w_right, v_neg1, s, g),
        only_odd_skipped(stopround, max_bits_to_gen_right, g),
        forall|n: int, z: int|
            0 <= n < params.crt_count && 0 <= z < params.poly_len ==> #[trigger] column_phase(
                params,
                start[0],
                1,
                0,
                s[n * params.poly_len + z] as int,
                n,
                z,
            ) % params.q(n) == (c * pow(
                pow(params.roots@[n] as int, (2 * z + 1) as nat),
                target as nat,
            )) % params.q(n),
    ensures
        forall|k: int|
            0 <= k < pow2(g as nat) ==> match level_after(stopround, g, k) {
                Some(l) => (#[trigger] decrypted(
                    params,
                    expansion(
                        params,
                        start,
                        g,
                        stopround,
                        max_bits_to_gen_right,
                        v_w_left,
                        v_w_right,
                        v_neg1,
                    )[k],
                    1,
                    0,
                    s,
                ))[0] as int == (if k == target {
                    ((pow2(l as nat) as int) * c) % (params.modulus as int)
                } else {
                    0
                }),
                None => expansion(
                    params,
                    start,
                    g,
                    stopround,
                    max_bits_to_gen_right,
                    v_w_left,
                    v_w_right,
                    v_neg1,
                )[k] == start[k],
            },
{
    let len: int = params.poly_len as int;
    let size: int = pow2(g as nat) as int;
    let big: int = params.modulus as int;
    lemma2_to64();
    lemma_pow2_pos(g as nat);
    assert(at_level(params, start[0], s, c, target, 0, 0)) by {
        lemma_small_mod(target as nat, (2 * len) as nat);
        assert(level_exponent(len, target, 0) == target);
        assert((target - 0) % 1 == 0);
        assert(level_coefficient(c, target, 0, 0) == 1 * c);
    }
    lemma_expansion_levels(
        params,
        start,
        g,
        stopround,
        max_bits_to_gen_right,
        v_w_left,
        v_w_right,
        v_neg1,
        s,
        c,
        target,
    );
    let fin: Seq<Seq<u64>> = expansion(
        params,
        start,
        g,
        stopround,
        max_bits_to_gen_right,
        v_w_left,
        v_w_right,
        v_neg1,
    );
    assert forall|k: int| 0 <= k < size implies match level_after(stopround, g, k) {
        Some(l) => (#[trigger] decrypted(params, fin[k], 1, 0, s))[0] as int == (if k == target {
            ((pow2(l as nat) as int) * c) % big
        } else {
            0
        }),
        None => fin[k] == start[k],
    } by {
        assert(holds_level(
            params,
            fin[k],
            start[k],
            s,
            c,
            target,
            level_after(stopround, g, k),
            k,
        ));
        match level_after(stopround, g, k) {
            Some(l) => {
                lemma_level_decrypts(params, fin[k], s, c, target, l, k);
                let kappa: int = level_coefficient(c, target, l, k);
                let e: int = level_exponent(len, target, k);
                let m: Seq<u64> = monomial_poly(params, kappa, e);
                lemma_mod_bound(target - k, 2 * len);
                lemma_mod_bound(kappa, big);
                lemma_mod_bound(-kappa, big);
                lemma_small_mod(0, big as nat);
                lemma_pow2_pos(l as nat);
                if k == target {
                    lemma_small_mod(0, (2 * len) as nat);
                    lemma_small_mod(0, pow2(l as nat));
                    assert(e == 0);
                    assert(kappa == (pow2(l as nat) as int) * c);
                } else if kappa == 0 {
                    assert(-kappa == 0);
                } else {
                    // the exponent is neither 0 nor the ring degree
                    if target > k {
                        lemma_small_mod((target - k) as nat, (2 * len) as nat);
                        assert(e == target - k);
                    } else {
                        lemma_mod_add_multiples_vanish(target - k, 2 * len);
                        lemma_small_mod((2 * len + target - k) as nat, (2 * len) as nat);
                        assert(e == 2 * len + target - k);
                    }
                }
            },
            None => {},
        }
    }
}

/// The number that the residue `val` modulo `q` stands for when the upper
/// half of the residues stands for negative numbers.
pub open spec fn centered(val: int, q: int) -> int {
    if val >= q / 2 {
        val - q
    } else {
        val
    }
}

/// The residue `val` decodes to zero: the number it stands for, divided by
/// the scale, rounds to zero.
pub open spec fn decodes_to_zero(val: int, q: int, scale: int) -> bool {
    -scale < 2 * centered(val, q) < scale
}

/// A multiple `k * floor(q / p)` of the scale with `1 <= k < p` does not
/// decode to zero, and zero does.
pub proof fn lemma_scaled_value_decodes(q: int, p: int, k: int)
    requires
        2 <= p <= q,
        1 <= k < p,
    ensures
        !decodes_to_zero((k * (q / p)) % q, q, q / p),
        decodes_to_zero(0, q, q / p),
{
    let scale: int = q / p;
    lemma_fundamental_div_mod(q, p);
    lemma_mod_bound(q, p);
    lemma_fundamental_div_mod(q, 2);
    assert(scale >= 1 && p * scale <= q) by (nonlinear_arith)
        requires
            q == p * scale + q % p,
            0 <= q % p < p,
            p <= q,
            p >= 2,
    ;
    let v: int = k * scale;
    assert(scale <= v && v + scale <= q) by (nonlinear_arith)
        requires
            v == k * scale,
            1 <= k,
            k + 1 <= p,
            p * scale <= q,
            scale >= 1,
    ;
    lemma_small_mod(v as nat, q as nat);
}

/// Expansion one-hotness, decoded. Under the conditions of
/// `lemma_expansion_one_hot`, where the ciphertext at position 0 encrypts
/// the scale `floor(q / p)` times `x^target` and `2^g` is below the
/// plaintext modulus `p`: of the first `2^g` ciphertexts, every one that a
/// round has written decodes in its coefficient of degree zero to a value
/// other than zero at position `target` and to zero elsewhere.
pub proof fn lemma_expansion_one_hot_decodes(
    params: &Params,
    start: Seq<Seq<u64>>,
    g: int,
    stopround: int,
    max_bits_to_gen_right: int,
    v_w_left: Seq<PolyMatrixNTT>,
    v_w_right: Seq<PolyMatrixNTT>,
    v_neg1: Seq<PolyMatrixNTT>,
    s: Seq<u64>,
    target: int,
)
    requires
        params.wf(),
        g >= 0,
        stopround >= 0,
        pow2(g as nat) <= params.poly_len,
        pow2(g as nat) <= start.len(),
        pow2(g as nat) < params.pt_modulus,
        0 <= target < pow2(g as nat),
        start[0].len() == 2 * params.num_words(),
        keys_valid(params, v_w_left, v_w_right, v_neg1, s, g),
        only_odd_skipped(stopround, max_bits_to_gen_right, g),
        forall|n: int, z: int|
            0 <= n < params.crt_count && 0 <= z < params.poly_len ==> #[trigger] column_phase(
                params,
                start[0],
                1,
                0,
                s[n * params.poly_len + z] as int,
                n,
                z,
            ) % params.q(n) == (((params.modulus / params.pt_modulus) as int) * pow(
                pow(params.roots@[n] as int, (2 * z + 1) as nat),
                target as nat,
            )) % params.q(n),
    ensures
        forall|k: int|
            0 <= k < pow2(g as nat) && level_after(stopround, g, k) is Some ==> (
            #[trigger] decodes_to_zero(
                decrypted(
                    params,
                    expansion(
                        params,
                        start,
                        g,
                        stopround,
                        max_bits_to_gen_right,
                        v_w_left,
                        v_w_right,
                        v_neg1,
                    )[k],
                    1,
                    0,
                    s,
                )[0] as int,
                params.modulus as int,
                (params.modulus / params.pt_modulus) as int,
            ) <==> k != target),
{
    let big: int = params.modulus as int;
    let p: int = params.pt_modulus as int;
    let scale: int = (params.modulus / params.pt_modulus) as int;
    lemma_expansion_one_hot(
        params,
        start,
        g,
        stopround,
        max_bits_to_gen_right,
        v_w_left,
        v_w_right,
        v_neg1,
        s,
        scale,
        target,
    );
    let fin: Seq<Seq<u64>> = expansion(
        params,
        start,
        g,
        stopround,
        max_bits_to_gen_right,
        v_w_left,
        v_w_right,
        v_neg1,
    );
    assert forall|k: int|
        0 <= k < pow2(g as nat) && level_after(stopround, g, k) is Some implies (
    #[trigger] decodes_to_zero(decrypted(params, fin[k], 1, 0, s)[0] as int, big, scale) <==> k
        != target) by {
        let l: int = level_after(stopround, g, k).unwrap();
        assert(0 <= l <= g);
        lemma_pow2_pos(l as nat);
        if l < g {
            lemma_pow2_strictly_increases(l as nat, g as nat);
        }
        lemma_scaled_value_decodes(big, p, pow2(l as nat) as int);
    }
}

} // verus!
