//! What the outputs of the stages decrypt to: a copied column of a GSW
//! ciphertext decrypts to what its input decrypts to, and decrypting the
//! inner product of a one-hot query with the database and scaling the result
//! down gives the chosen item.

use vstd::prelude::*;
use vstd::arithmetic::div_mod::*;
use vstd::arithmetic::mul::*;
use vstd::arithmetic::power::*;
use vstd::arithmetic::power2::*;
use crate::arith::{lemma_add_congruent, lemma_mul_congruent};
use crate::ntt::{forward_coeff, power_sum};
use crate::params::Params;
use crate::poly::{
    column_phase, from_ntt_data, lemma_div_lt, lemma_ntt_coords, lemma_ntt_index, lemma_split,
    ntt_index,
    position_of, residue_of, to_ntt_data, to_ntt_word, PolyMatrixNTT,
};
use crate::round_trip::lemma_from_ntt_of_to_ntt;
use crate::server::{
    db_data, db_size, db_word, first_dim_coeff, is_first_dim_product, item_word,
    lemma_first_dim_product_selects, lemma_gsw_phase, num_items, pair_done, phase, plain_word,
    recentered,
};
use crate::util::{pack, packed_residue, recenter, reoriented_word, rescaled};

verus! {

/// Scaling down undoes scaling up. Where the square of the plaintext
/// modulus `p` does not exceed the ciphertext modulus `q`, a plaintext
/// residue `x` that is recentered, multiplied by `floor(q / p)` and reduced
/// modulo `q` comes back from `rescaled`.
pub proof fn lemma_rescale_recovers(q: u64, p: u64, x: u64)
    requires
        2 <= p,
        p * p <= q,
        x < p,
    ensures
        rescaled(((((q / p) as int) * (recenter(x, p, q) as int)) % (q as int)) as u64, q, p) == x,
{
    let qi: int = q as int;
    let pi: int = p as int;
    let xi: int = x as int;
    let s: int = qi / pi;
    let rho: int = qi % pi;
    let half: int = qi / 2;
    lemma_fundamental_div_mod(qi, pi);
    lemma_mod_bound(qi, pi);
    lemma_fundamental_div_mod(qi, 2);
    lemma_fundamental_div_mod(pi, 2);
    let ph: int = pi / 2;
    assert(qi == pi * s + rho);
    assert(s >= pi) by (nonlinear_arith)
        requires
            qi == pi * s + rho,
            0 <= rho < pi,
            pi * pi <= qi,
            pi >= 2,
    ;
    if xi <= ph {
        let m: int = s * xi;
        // m is at most half of q
        assert(0 <= m && 2 * m <= qi && m < qi) by (nonlinear_arith)
            requires
                m == s * xi,
                0 <= xi,
                2 * xi <= pi,
                qi == pi * s + rho,
                0 <= rho,
                s >= 2,
                pi >= 2,
        ;
        lemma_small_mod(m as nat, qi as nat);
        assert(2 * (xi * rho) < qi) by (nonlinear_arith)
            requires
                0 <= xi,
                2 * xi <= pi,
                0 <= rho < pi,
                pi * pi <= qi,
                pi >= 2,
        ;
        if m >= half {
            // m is exactly half of q, and the negative branch gives p - x
            let up: int = (qi - m) * pi + half;
            assert(up == qi * (pi - xi) + (xi * rho + half)) by (nonlinear_arith)
                requires
                    up == (qi - m) * pi + half,
                    m == s * xi,
                    qi == pi * s + rho,
            ;
            assert(0 <= xi * rho) by (nonlinear_arith)
                requires
                    0 <= xi,
                    0 <= rho,
            ;
            lemma_fundamental_div_mod_converse(up, qi, pi - xi, xi * rho + half);
            assert(xi >= 1) by (nonlinear_arith)
                requires
                    m == s * xi,
                    m >= half,
                    half >= 1,
                    0 <= xi,
            ;
            lemma_small_mod((pi - xi) as nat, pi as nat);
            lemma_small_mod(xi as nat, pi as nat);
        } else {
            let up: int = m * pi + half;
            assert(up == qi * xi + (half - xi * rho)) by (nonlinear_arith)
                requires
                    up == m * pi + half,
                    m == s * xi,
                    qi == pi * s + rho,
            ;
            assert(0 <= xi * rho) by (nonlinear_arith)
                requires
                    0 <= xi,
                    0 <= rho,
            ;
            lemma_fundamental_div_mod_converse(up, qi, xi, half - xi * rho);
            lemma_small_mod(xi as nat, pi as nat);
        }
    } else {
        let y: int = pi - xi;
        assert(1 <= y && 2 * y < pi);
        let big: int = s * (xi + qi - pi);
        let m: int = qi - s * y;
        assert(0 < s * y && 2 * (s * y) < qi) by (nonlinear_arith)
            requires
                1 <= y,
                2 * y < pi,
                qi == pi * s + rho,
                0 <= rho,
                s >= 2,
        ;
        assert(big == qi * (s - 1) + m) by (nonlinear_arith)
            requires
                big == s * (xi + qi - pi),
                m == qi - s * y,
                y == pi - xi,
        ;
        lemma_fundamental_div_mod_converse(big, qi, s - 1, m);
        lemma_small_mod(m as nat, qi as nat);
        assert(m >= half);
        let up: int = (qi - m) * pi + half;
        assert(2 * (y * rho) < qi && 0 <= y * rho) by (nonlinear_arith)
            requires
                1 <= y,
                2 * y < pi,
                0 <= rho < pi,
                pi * pi <= qi,
        ;
        assert(up == qi * y + (half - y * rho)) by (nonlinear_arith)
            requires
                up == (qi - m) * pi + half,
                m == qi - s * y,
                qi == pi * s + rho,
        ;
        lemma_fundamental_div_mod_converse(up, qi, y, half - y * rho);
        lemma_small_mod(y as nat, pi as nat);
        lemma_small_mod(xi as nat, pi as nat);
    }
}

/// The transform of what column `c` of the two-row matrix `data` decrypts
/// to under the key whose transform is `s`: word by word the second row
/// minus the key times the first row, reduced.
pub open spec fn decrypted_ntt(
    params: &Params,
    data: Seq<u64>,
    cols: int,
    c: int,
    s: Seq<u64>,
) -> Seq<u64> {
    Seq::new(
        params.num_words() as nat,
        |i: int|
            (column_phase(
                params,
                data,
                cols,
                c,
                s[i] as int,
                residue_of(params, i),
                position_of(params, i),
            ) % params.q(residue_of(params, i))) as u64,
    )
}

/// What column `c` of the two-row matrix `data` decrypts to under the key
/// whose transform is `s`, in coefficient form. A ciphertext is its own
/// column 0.
pub open spec fn decrypted(params: &Params, data: Seq<u64>, cols: int, c: int, s: Seq<u64>) -> Seq<
    u64,
> {
    from_ntt_data(params, decrypted_ntt(params, data, cols, c, s))
}

/// A column decrypts to the polynomial whose transform its phases are:
/// where, at every position, the phase of column `c` under the key is the
/// word there of the transform of `m`, a polynomial with coefficients below
/// the ciphertext modulus, the column decrypts to `m`.
pub proof fn lemma_decrypts_to(
    params: &Params,
    data: Seq<u64>,
    cols: int,
    c: int,
    s: Seq<u64>,
    m: Seq<u64>,
)
    requires
        params.wf(),
        m.len() == params.poly_len,
        forall|j: int| 0 <= j < m.len() ==> #[trigger] m[j] < params.modulus,
        forall|n: int, z: int|
            0 <= n < params.crt_count && 0 <= z < params.poly_len ==> #[trigger] column_phase(
                params,
                data,
                cols,
                c,
                s[n * params.poly_len + z] as int,
                n,
                z,
            ) % params.q(n) == forward_coeff(
                m,
                0,
                params.poly_len as int,
                params.roots@[n] as int,
                params.q(n),
                z,
            ),
    ensures
        decrypted(params, data, cols, c, s) == m,
{
    let len: int = params.poly_len as int;
    let words: int = params.num_words();
    let dec: Seq<u64> = decrypted_ntt(params, data, cols, c, s);
    let want: Seq<u64> = to_ntt_data(params, m);
    assert(want.len() == words) by (nonlinear_arith)
        requires
            want.len() == m.len() * params.crt_count,
            m.len() == len,
            words == params.crt_count * len,
    ;
    assert forall|idx: int| 0 <= idx < words implies dec[idx] == want[idx] by {
        assert(1 * 1 * words == words) by (nonlinear_arith);
        lemma_ntt_coords(params, 1, 1, idx);
        let n: int = residue_of(params, idx);
        let z: int = position_of(params, idx);
        let q: int = params.q(n);
        lemma_div_lt(idx, 1, words);
        assert(idx / words == 0);
        assert(ntt_index(params, 1, 0, 0, n, z) == idx);
        assert(idx == n * len + z) by (nonlinear_arith)
            requires
                ntt_index(params, 1, 0, 0, n, z) == (0 * 1 + 0) * words + n * len + z,
                ntt_index(params, 1, 0, 0, n, z) == idx,
        ;
        assert(s[n * len + z] == s[idx]);
        let ph: int = column_phase(params, data, cols, c, s[n * len + z] as int, n, z);
        assert(ph % q == forward_coeff(m, 0, len, params.roots@[n] as int, q, z));
        assert(want[idx] == to_ntt_word(params, m, idx));
        assert((idx / words) * len == 0) by (nonlinear_arith)
            requires
                idx / words == 0,
        ;
    }
    assert(dec =~= want);
    assert(m.len() == 1 * len);
    lemma_from_ntt_of_to_ntt(params, m, 1);
}

/// The copied columns of a GSW ciphertext decrypt to what the inputs
/// decrypt to: under every key, column `2j + 1` of a ciphertext whose
/// column pair `j` was made from the input `inp` decrypts to the plaintext
/// of `inp`.
pub proof fn lemma_gsw_copied_column_decrypts(
    params: &Params,
    g: Seq<u64>,
    key: Seq<u64>,
    inp: Seq<u64>,
    j: int,
    s: Seq<u64>,
)
    requires
        params.wf(),
        pair_done(params, g, key, inp, j),
    ensures
        decrypted(params, g, 2 * params.t_gsw, 2 * j + 1, s) == decrypted(params, inp, 1, 0, s),
{
    let w: int = params.num_words();
    let left: Seq<u64> = decrypted_ntt(params, g, 2 * params.t_gsw, 2 * j + 1, s);
    let right: Seq<u64> = decrypted_ntt(params, inp, 1, 0, s);
    assert forall|idx: int| 0 <= idx < w implies left[idx] == right[idx] by {
        assert(1 * 1 * w == w) by (nonlinear_arith);
        lemma_ntt_coords(params, 1, 1, idx);
        lemma_gsw_phase(
            params,
            g,
            key,
            inp,
            j,
            s[idx] as int,
            residue_of(params, idx),
            position_of(params, idx),
        );
    }
    assert(left =~= right);
}

/// The packed query selects entry `k0` of the first dimension: at every
/// position, under the key whose transform is `s`, ciphertext `k0` decrypts
/// to the scale `floor(q / p)` and every other ciphertext to zero.
pub open spec fn query_selects(
    params: &Params,
    v: Seq<u64>,
    s: Seq<u64>,
    dim0: int,
    k0: int,
) -> bool {
    forall|n: int, z: int, k: int|
        0 <= n < 2 && 0 <= z < params.poly_len && 0 <= k < dim0 ==> #[trigger] phase(
            v,
            z * (dim0 * 2),
            s[n * params.poly_len + z] as int,
            n,
            k,
        ) % params.q(n) == (if k == k0 {
            ((params.modulus / params.pt_modulus) as int) % params.q(n)
        } else {
            0
        })
}

/// The coefficients of the polynomial at `off` of `a`, each times `c` and
/// reduced modulo the ciphertext modulus.
pub open spec fn scaled_poly(params: &Params, a: Seq<u64>, off: int, c: int) -> Seq<u64> {
    Seq::new(
        params.poly_len as nat,
        |z: int| ((c * (a[off + z] as int)) % (params.modulus as int)) as u64,
    )
}

/// The weighted sum of coefficients that are `c` times other coefficients,
/// modulo `q`, is `c` times the weighted sum of those.
pub proof fn lemma_sum_scales(
    m: Seq<u64>,
    a: Seq<u64>,
    off: int,
    c: int,
    w: int,
    de: int,
    q: int,
    k: int,
)
    requires
        q > 0,
        de >= 0,
        k >= 0,
        forall|j: int| 0 <= j < k ==> (#[trigger] m[j] as int) % q == (c * (a[off + j] as int)) % q,
    ensures
        power_sum(m, 0, w, 0, de, k) % q == (c * power_sum(a, off, w, 0, de, k)) % q,
    decreases k,
{
    if k > 0 {
        lemma_sum_scales(m, a, off, c, w, de, q, k - 1);
        lemma_mul_nonnegative(de, k - 1);
        let e: nat = (0 + de * (k - 1)) as nat;
        let pw: int = pow(w, e);
        let x: int = a[off + k - 1] as int;
        let sa: int = power_sum(a, off, w, 0, de, k - 1);
        assert((m[k - 1] as int) % q == (c * x) % q);
        assert(m[0 + k - 1] == m[k - 1]);
        lemma_mul_congruent(m[k - 1] as int, c * x, pw, pw, q);
        lemma_add_congruent(
            power_sum(m, 0, w, 0, de, k - 1),
            c * sa,
            (m[k - 1] as int) * pw,
            (c * x) * pw,
            q,
        );
        assert(c * sa + (c * x) * pw == c * (sa + x * pw)) by (nonlinear_arith);
    } else {
        assert(c * 0 == 0);
    }
}

/// Where the database keeps item `k0 * 2^db_dim_2 + i`: at position `z` of
/// the first matrix entry, the word at `(z, i, k0)` packs the two residues
/// of the transform of the recentered plaintext of the item.
pub proof fn lemma_db_entry(params: &Params, words: Seq<u64>, i: int, k0: int, n: int, z: int)
    requires
        params.wf(),
        params.crt_count == 2,
        words.len() == db_size(params),
        0 <= i < pow2(params.db_dim_2 as nat),
        0 <= k0 < pow2(params.db_dim_1 as nat),
        0 <= n < 2,
        0 <= z < params.poly_len,
    ensures
        ({
            let dim0: int = pow2(params.db_dim_1 as nat) as int;
            let num_per: int = pow2(params.db_dim_2 as nat) as int;
            let idx: int = z * (num_per * dim0) + i * dim0 + k0;
            &&& 0 <= idx < db_size(params)
            &&& 0 <= (k0 * num_per + i) * params.poly_len
            &&& (k0 * num_per + i) * params.poly_len + params.poly_len <= db_size(params)
            &&& k0 * num_per + i < num_items(params)
            &&& packed_residue(db_data(params, words)[idx], n) == forward_coeff(
                recentered(params, words),
                (k0 * num_per + i) * params.poly_len,
                params.poly_len as int,
                params.roots@[n] as int,
                params.q(n),
                z,
            )
        }),
{
    let len: int = params.poly_len as int;
    let dim0: int = pow2(params.db_dim_1 as nat) as int;
    let num_per: int = pow2(params.db_dim_2 as nat) as int;
    let items: int = num_items(params);
    let trials: int = params.n * params.n;
    let idx: int = z * (num_per * dim0) + i * dim0 + k0;
    let item: int = k0 * num_per + i;
    assert(trials >= 1) by (nonlinear_arith)
        requires
            trials == params.n * params.n,
            params.n >= 1,
    ;
    assert(items == dim0 * num_per);
    assert(idx == (z * num_per + i) * dim0 + k0 && 0 <= z * num_per + i < len * num_per && 0
        <= idx < len * num_per * dim0 && len * num_per * dim0 <= trials * items * len && 0
        <= item < items && 0 <= item * len && item * len + len <= trials * items * len)
        by (nonlinear_arith)
        requires
            idx == z * (num_per * dim0) + i * dim0 + k0,
            item == k0 * num_per + i,
            items == dim0 * num_per,
            0 <= i < num_per,
            0 <= k0 < dim0,
            0 <= z < len,
            trials >= 1,
    ;
    lemma_split(z * num_per + i, k0, dim0);
    lemma_split(z, i, num_per);
    lemma_split(0, z, len);
    assert(0 * len + z == z);
    assert(idx / dim0 / num_per / len == 0);
    assert((0 * items + (k0 * num_per + i)) * len == item * len) by (nonlinear_arith)
        requires
            item == k0 * num_per + i,
    ;
    let rec: Seq<u64> = recentered(params, words);
    let fc0: int = forward_coeff(rec, item * len, len, params.roots@[0] as int, params.q(0), z);
    let fc1: int = forward_coeff(rec, item * len, len, params.roots@[1] as int, params.q(1), z);
    assert(params.residue_wf(0) && params.residue_wf(1));
    lemma_mod_bound(
        power_sum(rec, item * len, params.roots@[0] as int, 0, 2 * z + 1, len),
        params.q(0),
    );
    lemma_mod_bound(
        power_sum(rec, item * len, params.roots@[1] as int, 0, 2 * z + 1, len),
        params.q(1),
    );
    assert(db_word(params, words, idx) == pack(fc0, fc1));
    assert(db_data(params, words)[idx] == db_word(params, words, idx) as u64);
    assert(0 <= pack(fc0, fc1) < 0x1000_0000_0000_0000) by (nonlinear_arith)
        requires
            pack(fc0, fc1) == fc0 + fc1 * 0x1_0000_0000,
            0 <= fc0 < 0x1000_0000,
            0 <= fc1 < 0x1000_0000,
    ;
    lemma_split(fc1, fc0, 0x1_0000_0000);
}

/// Retrieval by a one-hot query. Where the packed query selects entry `k0`
/// of the first dimension, the database is the one made from the random
/// words `words`, and the square of the plaintext modulus does not exceed
/// the ciphertext modulus: decrypting output `i` of the inner product and
/// scaling every coefficient down to a plaintext residue gives the first
/// polynomial of the plaintext of item `k0 * 2^db_dim_2 + i`.
pub proof fn lemma_one_hot_query_retrieves(
    params: &Params,
    out: Seq<PolyMatrixNTT>,
    v: Seq<u64>,
    s: Seq<u64>,
    words: Seq<u64>,
    i: int,
    k0: int,
)
    requires
        params.wf(),
        params.crt_count == 2,
        params.pt_modulus * params.pt_modulus <= params.modulus,
        words.len() == db_size(params),
        s.len() == params.num_words(),
        0 <= i < pow2(params.db_dim_2 as nat),
        0 <= k0 < pow2(params.db_dim_1 as nat),
        query_selects(params, v, s, pow2(params.db_dim_1 as nat) as int, k0),
        is_first_dim_product(
            params,
            out,
            db_data(params, words),
            v,
            pow2(params.db_dim_1 as nat) as int,
            pow2(params.db_dim_2 as nat) as int,
        ),
    ensures
        forall|z: int|
            0 <= z < params.poly_len ==> rescaled(
                #[trigger] decrypted(params, out[i].data@, 1, 0, s)[z],
                params.modulus,
                params.pt_modulus,
            ) == item_word(params, words, k0 * pow2(params.db_dim_2 as nat) + i, z),
{
    let len: int = params.poly_len as int;
    let w: int = params.num_words();
    let dim0: int = pow2(params.db_dim_1 as nat) as int;
    let num_per: int = pow2(params.db_dim_2 as nat) as int;
    let item: int = k0 * num_per + i;
    let off: int = item * len;
    let db: Seq<u64> = db_data(params, words);
    let rec: Seq<u64> = recentered(params, words);
    let scale: int = (params.modulus / params.pt_modulus) as int;
    let m: Seq<u64> = scaled_poly(params, rec, off, scale);
    let ct: Seq<u64> = out[i].data@;
    let q_all: int = params.modulus as int;
    assert(w == 2 * len) by (nonlinear_arith)
        requires
            w == params.crt_count * len,
            params.crt_count == 2,
    ;
    assert(params.residue_wf(0) && params.residue_wf(1));
    lemma_db_entry(params, words, i, k0, 0, 0);
    // the transform of what the output decrypts to is the transform of the
    // scaled plaintext
    let dec: Seq<u64> = decrypted_ntt(params, ct, 1, 0, s);
    let want: Seq<u64> = to_ntt_data(params, m);
    assert(want.len() == w);
    assert forall|idx: int| 0 <= idx < w implies dec[idx] == want[idx] by {
        assert(1 * 1 * w == w) by (nonlinear_arith);
        lemma_ntt_coords(params, 1, 1, idx);
        let n: int = residue_of(params, idx);
        let z: int = position_of(params, idx);
        let q: int = params.q(n);
        let psi: int = params.roots@[n] as int;
        let sv: int = s[idx] as int;
        lemma_div_lt(idx, 1, w);
        assert(idx / w == 0);
        assert(ntt_index(params, 1, 0, 0, n, z) == idx);
        assert(idx == n * len + z) by (nonlinear_arith)
            requires
                ntt_index(params, 1, 0, 0, n, z) == (0 * 1 + 0) * w + n * len + z,
                ntt_index(params, 1, 0, 0, n, z) == idx,
        ;
        assert(s[n * len + z] == s[idx]);
        // the phase of the output is the scale times the database entry
        let f1: int = first_dim_coeff(params, db, v, dim0, num_per, i, 1, n, z);
        let f0: int = first_dim_coeff(params, db, v, dim0, num_per, i, 0, n, z);
        assert(ct[ntt_index(params, 1, 1, 0, n, z)] as int == f1);
        assert(ct[ntt_index(params, 1, 0, 0, n, z)] as int == f0);
        assert(column_phase(params, ct, 1, 0, sv, n, z) == f1 - sv * f0);
        assert forall|k: int| 0 <= k < dim0 && k != k0 implies #[trigger] phase(
            v,
            z * (dim0 * 2),
            sv,
            n,
            k,
        ) % q == 0 by {
            assert(phase(v, z * (dim0 * 2), s[n * len + z] as int, n, k) % params.q(n) == 0);
        }
        lemma_first_dim_product_selects(params, db, v, dim0, num_per, i, n, z, sv, k0);
        lemma_db_entry(params, words, i, k0, n, z);
        let ph: int = phase(v, z * (dim0 * 2), sv, n, k0);
        assert(phase(v, z * (dim0 * 2), s[n * len + z] as int, n, k0) % params.q(n) == scale % q);
        let total: int = power_sum(rec, off, psi, 0, 2 * z + 1, len);
        let fc: int = forward_coeff(rec, off, len, psi, q, z);
        assert(packed_residue(db[z * (num_per * dim0) + i * dim0 + k0], n) == fc);
        lemma_mod_twice(total, q);
        lemma_mul_congruent(ph, scale, fc, total, q);
        assert((f1 - sv * f0) % q == (scale * total) % q);
        // the transform of the scaled plaintext is the scale times the
        // transform of the plaintext
        assert forall|j: int| 0 <= j < len implies (#[trigger] m[j] as int) % q == (scale * (
        rec[off + j] as int)) % q by {
            let x: int = scale * (rec[off + j] as int);
            lemma_mod_bound(x, q_all);
            if n == 0 {
                lemma_mod_mod(x, params.q(0), params.q(1));
            } else {
                lemma_mod_mod(x, params.q(1), params.q(0));
                lemma_mul_is_commutative(params.q(0), params.q(1));
            }
        }
        lemma_sum_scales(m, rec, off, scale, psi, 2 * z + 1, q, len);
        assert(want[idx] == to_ntt_word(params, m, idx));
        assert((idx / w) * len == 0) by (nonlinear_arith)
            requires
                idx / w == 0,
        ;
        lemma_mod_bound(power_sum(m, 0, psi, 0, 2 * z + 1, len), q);
        lemma_mod_bound(f1 - sv * f0, q);
    }
    assert(dec =~= want);
    // bringing the transform back gives the scaled plaintext
    assert forall|j: int| 0 <= j < m.len() implies #[trigger] m[j] < params.modulus by {
        lemma_mod_bound(scale * (rec[off + j] as int), q_all);
    }
    assert(m.len() == 1 * len);
    lemma_from_ntt_of_to_ntt(params, m, 1);
    assert(decrypted(params, ct, 1, 0, s) == m);
    // and scaling down gives the plaintext
    assert forall|z: int| 0 <= z < len implies rescaled(
        #[trigger] decrypted(params, ct, 1, 0, s)[z],
        params.modulus,
        params.pt_modulus,
    ) == item_word(params, words, k0 * pow2(params.db_dim_2 as nat) + i, z) by {
        let x: u64 = plain_word(params, words, off + z);
        lemma_mod_bound((words[off + z] as int) % q_all, params.pt_modulus as int);
        assert(rec[off + z] == recenter(x, params.pt_modulus, params.modulus));
        lemma_rescale_recovers(params.modulus, params.pt_modulus, x);
        lemma_split(0, z, len);
        assert(0 * len + z == z);
        assert((0 * num_items(params) + item) * len + z == off + z) by (nonlinear_arith)
            requires
                off == item * len,
        ;
    }
}

/// A one-hot query stays one-hot in the packed layout. Where `v` is the
/// first-dimension layout of the ciphertexts `v_reg`, of which the one at
/// `k0` decrypts at every position to the scale `floor(q / p)` and every
/// other one to zero, the packed query selects entry `k0`.
pub proof fn lemma_reoriented_query_selects(
    params: &Params,
    v: Seq<u64>,
    v_reg: Seq<PolyMatrixNTT>,
    s: Seq<u64>,
    dim0: int,
    k0: int,
)
    requires
        params.wf(),
        params.crt_count == 2,
        dim0 >= 1,
        dim0 <= v_reg.len(),
        forall|k: int| 0 <= k < dim0 ==> (#[trigger] v_reg[k]).is_shape(params, 2, 1),
        forall|idx: int|
            0 <= idx < params.poly_len * (2 * dim0) ==> (#[trigger] v[idx]) as int
                == reoriented_word(params, v_reg, dim0, idx),
        forall|k: int, n: int, z: int|
            0 <= k < dim0 && 0 <= n < 2 && 0 <= z < params.poly_len ==> #[trigger] column_phase(
                params,
                v_reg[k].data@,
                1,
                0,
                s[n * params.poly_len + z] as int,
                n,
                z,
            ) % params.q(n) == (if k == k0 {
                ((params.modulus / params.pt_modulus) as int) % params.q(n)
            } else {
                0
            }),
    ensures
        query_selects(params, v, s, dim0, k0),
{
    let len: int = params.poly_len as int;
    let words: int = params.num_words();
    assert(params.residue_wf(0) && params.residue_wf(1));
    assert(words == 2 * len) by (nonlinear_arith)
        requires
            words == params.crt_count * len,
            params.crt_count == 2,
    ;
    assert forall|n: int, z: int, k: int|
        0 <= n < 2 && 0 <= z < params.poly_len && 0 <= k < dim0 implies #[trigger] phase(
        v,
        z * (dim0 * 2),
        s[n * params.poly_len + z] as int,
        n,
        k,
    ) % params.q(n) == (if k == k0 {
        ((params.modulus / params.pt_modulus) as int) % params.q(n)
    } else {
        0
    }) by {
        let q: int = params.q(n);
        let sv: int = s[n * len + z] as int;
        let base: int = z * (dim0 * 2);
        let data: Seq<u64> = v_reg[k].data@;
        assert(v_reg[k].is_shape(params, 2, 1));
        // the two packed words of ciphertext k at position z
        let i0: int = base + 2 * k;
        let i1: int = base + 2 * k + 1;
        assert(i0 == z * (2 * dim0) + (2 * k + 0) && i1 == z * (2 * dim0) + (2 * k + 1) && 0 <= i0
            && i1 < len * (2 * dim0)) by (nonlinear_arith)
            requires
                i0 == z * (dim0 * 2) + 2 * k,
                i1 == z * (dim0 * 2) + 2 * k + 1,
                0 <= z < len,
                0 <= k < dim0,
        ;
        lemma_split(z, 2 * k + 0, 2 * dim0);
        lemma_split(z, 2 * k + 1, 2 * dim0);
        lemma_split(k, 0, 2);
        lemma_split(k, 1, 2);
        assert(k * 2 + 0 == 2 * k + 0 && k * 2 + 1 == 2 * k + 1);
        assert(0 * words + z == z && 1 * words + z == words + z);
        assert(v[i0] as int == reoriented_word(params, v_reg, dim0, i0));
        assert(v[i1] as int == reoriented_word(params, v_reg, dim0, i1));
        let a0: int = (data[z] as int) % params.q(0);
        let a1: int = (data[z + len] as int) % params.q(1);
        let b0: int = (data[words + z] as int) % params.q(0);
        let b1: int = (data[words + z + len] as int) % params.q(1);
        lemma_mod_bound(data[z] as int, params.q(0));
        lemma_mod_bound(data[z + len] as int, params.q(1));
        lemma_mod_bound(data[words + z] as int, params.q(0));
        lemma_mod_bound(data[words + z + len] as int, params.q(1));
        assert(v[i0] as int == pack(a0, a1));
        assert(v[i1] as int == pack(b0, b1));
        lemma_split(a1, a0, 0x1_0000_0000);
        lemma_split(b1, b0, 0x1_0000_0000);
        // the words of the ciphertext
        lemma_ntt_index(params, 2, 1, 0, 0, n, z);
        lemma_ntt_index(params, 2, 1, 1, 0, n, z);
        let j0: int = ntt_index(params, 1, 0, 0, n, z);
        let j1: int = ntt_index(params, 1, 1, 0, n, z);
        assert(j0 == n * len + z && j1 == words + n * len + z) by (nonlinear_arith)
            requires
                j0 == (0 * 1 + 0) * words + n * len + z,
                j1 == (1 * 1 + 0) * words + n * len + z,
        ;
        let c0: int = data[j0] as int;
        let c1: int = data[j1] as int;
        if n == 0 {
            assert(n * len == 0);
        } else {
            assert(n * len == len) by (nonlinear_arith)
                requires
                    n == 1,
            ;
        }
        let r0: int = packed_residue(v[base + 2 * k], n);
        let r1: int = packed_residue(v[base + 2 * k + 1], n);
        assert(r0 == c0 % q);
        assert(r1 == c1 % q);
        // the phase of the packed words is the phase of the ciphertext
        lemma_mul_mod_noop_right(sv, c0, q);
        lemma_sub_mod_noop(c1, sv * c0, q);
        lemma_sub_mod_noop(c1 % q, sv * (c0 % q), q);
        lemma_mod_twice(c1, q);
        assert(column_phase(params, data, 1, 0, sv, n, z) == c1 - sv * c0);
    }
}

} // verus!
