//! Retrieval with noise: where the noise of the query stays within a budget,
//! decrypting the inner product and scaling it down still gives the chosen
//! item. Products of transforms are products in the ring, whose
//! coefficients are bounded by those of their factors.

use vstd::prelude::*;
use vstd::arithmetic::div_mod::*;
use vstd::arithmetic::mul::*;
use vstd::arithmetic::power::*;
use vstd::arithmetic::power2::*;
use crate::arith::{lemma_add_congruent, lemma_mul_congruent};
use crate::decrypt::{decrypted, lemma_db_entry, lemma_decrypts_to};
use crate::evaluation::{lemma_point_is_root, lemma_sum_repower};
use crate::ntt::{forward_coeff, power_sum};
use crate::params::{is_root, Params};
use crate::poly::{column_phase, lemma_split, ntt_index, PolyMatrixNTT};
use crate::server::{
    db_data, db_size, first_dim_coeff, is_first_dim_product, item_word,
    lemma_first_dim_product_decrypts, num_items, phase, phase_sum, plain_word, recentered,
};
use crate::util::{packed_residue, recenter, rescaled};

verus! {

/// The value at `x` of the polynomial with the first `k` of the integer
/// coefficients `c`.
pub open spec fn eval(c: Seq<int>, x: int, k: int) -> int
    decreases k,
{
    if k <= 0 {
        0
    } else {
        eval(c, x, k - 1) + c[k - 1] * pow(x, (k - 1) as nat)
    }
}

/// The polynomial times `x` in the ring: every coefficient moves up by one
/// degree, and the last comes back at degree zero with its sign changed.
pub open spec fn rot(c: Seq<int>) -> Seq<int> {
    Seq::new(
        c.len(),
        |z: int|
            if z == 0 {
                -c[c.len() - 1]
            } else {
                c[z - 1]
            },
    )
}

/// The polynomial times `x^j` in the ring.
pub open spec fn shift(c: Seq<int>, j: int) -> Seq<int>
    decreases j,
{
    if j <= 0 {
        c
    } else {
        rot(shift(c, j - 1))
    }
}

/// The product in the ring of the polynomial with the first `j`
/// coefficients of `a` and the polynomial `b`.
pub open spec fn conv(a: Seq<int>, b: Seq<int>, j: int) -> Seq<int>
    decreases j,
{
    if j <= 0 {
        Seq::new(b.len(), |z: int| 0int)
    } else {
        Seq::new(b.len(), |z: int| conv(a, b, j - 1)[z] + a[j - 1] * shift(b, j - 1)[z])
    }
}

/// Every coefficient is at most `bound` in absolute value.
pub open spec fn bounded(c: Seq<int>, bound: int) -> bool {
    forall|z: int| 0 <= z < c.len() ==> -bound <= #[trigger] c[z] <= bound
}

/// Shifting keeps the length and the bound of the coefficients.
pub proof fn lemma_shift_bounded(c: Seq<int>, j: int, bound: int)
    requires
        j >= 0,
        c.len() >= 1,
        bounded(c, bound),
    ensures
        shift(c, j).len() == c.len(),
        bounded(shift(c, j), bound),
    decreases j,
{
    if j > 0 {
        lemma_shift_bounded(c, j - 1, bound);
        let prev: Seq<int> = shift(c, j - 1);
        assert forall|z: int| 0 <= z < rot(prev).len() implies -bound <= #[trigger] rot(prev)[z]
            <= bound by {
            if z == 0 {
                assert(-bound <= prev[prev.len() - 1] <= bound);
            } else {
                assert(-bound <= prev[z - 1] <= bound);
            }
        }
    }
}

/// The value of the polynomial times `x`, before the last coefficient
/// comes back.
proof fn lemma_eval_rot_partial(c: Seq<int>, x: int, k: int)
    requires
        1 <= k <= c.len(),
    ensures
        eval(rot(c), x, k) == -c[c.len() - 1] + x * eval(c, x, k - 1),
    decreases k,
{
    let r: Seq<int> = rot(c);
    if k == 1 {
        lemma_pow0(x);
        assert(eval(r, x, 0) == 0);
        assert(r[0] == -c[c.len() - 1]);
        assert(r[0] * 1 == r[0]);
        assert(x * 0 == 0);
    } else {
        lemma_eval_rot_partial(c, x, k - 1);
        lemma_pow_adds(x, 1, (k - 2) as nat);
        lemma_pow1(x);
        assert(1 + (k - 2) as nat == (k - 1) as nat);
        let before: int = eval(c, x, k - 2);
        let co: int = c[k - 2];
        let p2: int = pow(x, (k - 2) as nat);
        assert(r[k - 1] == co);
        assert(x * (before + co * p2) == x * before + co * (x * p2)) by (nonlinear_arith);
    }
}

/// The value of the polynomial times `x` in the ring is `x` times its
/// value, at a point `x` with `x^len = -1`.
pub proof fn lemma_eval_rot(c: Seq<int>, x: int, q: int)
    requires
        q >= 2,
        c.len() >= 1,
        is_root(x, c.len() as int, q),
    ensures
        eval(rot(c), x, c.len() as int) % q == (x * eval(c, x, c.len() as int)) % q,
{
    let len: int = c.len() as int;
    lemma_eval_rot_partial(c, x, len);
    let last: int = c[len - 1];
    let before: int = eval(c, x, len - 1);
    lemma_pow_adds(x, 1, (len - 1) as nat);
    lemma_pow1(x);
    assert(1 + (len - 1) as nat == len as nat);
    let top: int = pow(x, len as nat);
    assert(x * (before + last * pow(x, (len - 1) as nat)) == x * before + last * top)
        by (nonlinear_arith)
        requires
            top == x * pow(x, (len - 1) as nat),
    ;
    // last * x^len is -last modulo q
    lemma_small_mod((q - 1) as nat, q as nat);
    lemma_mul_congruent(last, last, top, q - 1, q);
    assert(last * (q - 1) == q * last + (-last)) by (nonlinear_arith);
    lemma_mod_multiples_vanish(last, -last, q);
    lemma_add_congruent(x * before, x * before, last * top, -last, q);
}

/// The value of the polynomial times `x^j` in the ring is `x^j` times its
/// value.
pub proof fn lemma_eval_shift(c: Seq<int>, x: int, q: int, j: int)
    requires
        q >= 2,
        j >= 0,
        c.len() >= 1,
        is_root(x, c.len() as int, q),
    ensures
        shift(c, j).len() == c.len(),
        eval(shift(c, j), x, c.len() as int) % q == (pow(x, j as nat) * eval(
            c,
            x,
            c.len() as int,
        )) % q,
    decreases j,
{
    let len: int = c.len() as int;
    let value: int = eval(c, x, len);
    if j > 0 {
        lemma_eval_shift(c, x, q, j - 1);
        let prev: Seq<int> = shift(c, j - 1);
        lemma_eval_rot(prev, x, q);
        lemma_pow_adds(x, 1, (j - 1) as nat);
        lemma_pow1(x);
        assert(1 + (j - 1) as nat == j as nat);
        let pj: int = pow(x, (j - 1) as nat);
        lemma_mul_congruent(x, x, eval(prev, x, len), pj * value, q);
        assert(x * (pj * value) == (x * pj) * value) by (nonlinear_arith);
    } else {
        lemma_pow0(x);
        assert(1 * value == value);
    }
}

/// The value of a sum of a polynomial and a multiple of another is the sum
/// of the values.
pub proof fn lemma_eval_add_scaled(y: Seq<int>, p: Seq<int>, s: Seq<int>, a: int, x: int, k: int)
    requires
        k >= 0,
        forall|z: int| 0 <= z < k ==> #[trigger] y[z] == p[z] + a * s[z],
    ensures
        eval(y, x, k) == eval(p, x, k) + a * eval(s, x, k),
    decreases k,
{
    if k > 0 {
        lemma_eval_add_scaled(y, p, s, a, x, k - 1);
        let pw: int = pow(x, (k - 1) as nat);
        assert(y[k - 1] == p[k - 1] + a * s[k - 1]);
        let ep: int = eval(p, x, k - 1);
        let es: int = eval(s, x, k - 1);
        assert((ep + a * es) + (p[k - 1] + a * s[k - 1]) * pw == (ep + p[k - 1] * pw) + a * (es
            + s[k - 1] * pw)) by (nonlinear_arith);
    } else {
        assert(a * 0 == 0);
    }
}

/// The polynomial without coefficients has value zero.
pub proof fn lemma_eval_zero(c: Seq<int>, x: int, k: int)
    requires
        0 <= k <= c.len(),
        forall|z: int| 0 <= z < c.len() ==> #[trigger] c[z] == 0,
    ensures
        eval(c, x, k) == 0,
    decreases k,
{
    if k > 0 {
        lemma_eval_zero(c, x, k - 1);
        assert(c[k - 1] == 0);
        assert(0 * pow(x, (k - 1) as nat) == 0);
    }
}

/// Products of values are values of products: at a point `x` with
/// `x^len = -1`, the value of the product in the ring of two polynomials is
/// the product of their values, modulo `q`.
pub proof fn lemma_eval_conv(a: Seq<int>, b: Seq<int>, x: int, q: int, j: int)
    requires
        q >= 2,
        b.len() >= 1,
        0 <= j <= a.len(),
        is_root(x, b.len() as int, q),
    ensures
        conv(a, b, j).len() == b.len(),
        eval(conv(a, b, j), x, b.len() as int) % q == (eval(a, x, j) * eval(b, x, b.len() as int))
            % q,
    decreases j,
{
    let len: int = b.len() as int;
    let value: int = eval(b, x, len);
    if j > 0 {
        lemma_eval_conv(a, b, x, q, j - 1);
        lemma_eval_shift(b, x, q, j - 1);
        let prev: Seq<int> = conv(a, b, j - 1);
        let sh: Seq<int> = shift(b, j - 1);
        let cur: Seq<int> = conv(a, b, j);
        let co: int = a[j - 1];
        lemma_eval_add_scaled(cur, prev, sh, co, x, len);
        let pj: int = pow(x, (j - 1) as nat);
        let ea: int = eval(a, x, j - 1);
        lemma_mul_congruent(co, co, eval(sh, x, len), pj * value, q);
        lemma_add_congruent(eval(prev, x, len), ea * value, co * eval(sh, x, len), co * (pj
            * value), q);
        assert(ea * value + co * (pj * value) == (ea + co * pj) * value) by (nonlinear_arith);
    } else {
        lemma_eval_zero(conv(a, b, 0), x, len);
        assert(0 * value == 0);
    }
}

/// The coefficients of a product in the ring differ from those of the
/// second factor times the constant coefficient of the first by at most
/// the number of the other coefficients times the two bounds.
pub proof fn lemma_conv_bounded(a: Seq<int>, b: Seq<int>, j: int, ea: int, eb: int, z: int)
    requires
        b.len() >= 1,
        1 <= j <= a.len(),
        ea >= 0,
        eb >= 0,
        forall|i: int| 1 <= i < j ==> -ea <= #[trigger] a[i] <= ea,
        bounded(b, eb),
        0 <= z < b.len(),
    ensures
        -((j - 1) * (ea * eb)) <= conv(a, b, j)[z] - a[0] * b[z] <= (j - 1) * (ea * eb),
    decreases j,
{
    if j == 1 {
        assert(conv(a, b, 0)[z] == 0);
        assert(shift(b, 0) == b);
        assert(conv(a, b, 1)[z] == 0 + a[0] * b[z]);
        assert((1 - 1) * (ea * eb) == 0);
    } else {
        lemma_conv_bounded(a, b, j - 1, ea, eb, z);
        lemma_shift_bounded(b, j - 1, eb);
        let co: int = a[j - 1];
        let sv: int = shift(b, j - 1)[z];
        assert(-ea <= co <= ea);
        assert(-eb <= sv <= eb);
        assert(-(ea * eb) <= co * sv <= ea * eb) by (nonlinear_arith)
            requires
                -ea <= co <= ea,
                -eb <= sv <= eb,
        ;
        assert(conv(a, b, j)[z] == conv(a, b, j - 1)[z] + co * sv);
        assert((j - 1) * (ea * eb) == (j - 2) * (ea * eb) + ea * eb) by (nonlinear_arith);
    }
}

/// Scaling down absorbs noise. Where the residue `v` modulo `q` stands for
/// `floor(q / p) * x + noise` and `2 * p * (|noise| + |x|) < q`, scaling `v`
/// down gives the residue of `x` modulo `p`.
pub proof fn lemma_rescale_with_noise(q: u64, p: u64, v: u64, x: int, noise: int, half: int, bound: int)
    requires
        2 <= p <= q,
        v < q,
        (((q / p) as int) * x + noise) % (q as int) == v as int,
        -half <= x <= half,
        -bound <= noise <= bound,
        2 * (p * (bound + half)) < q,
    ensures
        rescaled(v, q, p) == x % (p as int),
{
    let qi: int = q as int;
    let pi: int = p as int;
    let vi: int = v as int;
    let scale: int = qi / pi;
    let rho: int = qi % pi;
    let mid: int = qi / 2;
    let y: int = scale * x + noise;
    let t: int = y / qi;
    lemma_fundamental_div_mod(qi, pi);
    lemma_mod_bound(qi, pi);
    lemma_fundamental_div_mod(qi, 2);
    lemma_fundamental_div_mod(y, qi);
    lemma_small_mod(vi as nat, qi as nat);
    assert(y == qi * t + vi);
    let w: int = x - t * pi;
    let delta: int = noise * pi - rho * x;
    assert(vi * pi == qi * w + delta) by (nonlinear_arith)
        requires
            y == qi * t + vi,
            y == scale * x + noise,
            qi == pi * scale + rho,
            w == x - t * pi,
            delta == noise * pi - rho * x,
    ;
    assert(-(pi * (bound + half)) <= delta <= pi * (bound + half)) by (nonlinear_arith)
        requires
            delta == noise * pi - rho * x,
            -half <= x <= half,
            -bound <= noise <= bound,
            0 <= rho < pi,
    ;
    assert(-mid <= delta && delta + mid < qi);
    // w and x have the same residue modulo p
    lemma_mul_is_commutative(t, pi);
    lemma_mod_multiples_vanish(-t, x, pi);
    assert(pi * (-t) + x == w) by (nonlinear_arith)
        requires
            w == x - t * pi,
    ;
    assert(w % pi == x % pi);
    lemma_mod_bound(w, pi);
    if vi >= mid {
        let up: int = (qi - vi) * pi + mid;
        assert(up == qi * (pi - w) + (mid - delta)) by (nonlinear_arith)
            requires
                up == (qi - vi) * pi + mid,
                vi * pi == qi * w + delta,
        ;
        lemma_fundamental_div_mod_converse(up, qi, pi - w, mid - delta);
        // (p - w) mod p is (-w) mod p
        lemma_mod_add_multiples_vanish(-w, pi);
        assert(pi + -w == pi - w);
        let r: int = (pi - w) % pi;
        lemma_mod_bound(pi - w, pi);
        lemma_fundamental_div_mod(-w, pi);
        let k: int = (-w) / pi;
        assert(-w == pi * k + r);
        if r == 0 {
            lemma_mod_self_0(pi);
            assert(w == pi * (-k) + 0) by (nonlinear_arith)
                requires
                    -w == pi * k + 0,
            ;
            lemma_fundamental_div_mod_converse(w, pi, -k, 0);
        } else {
            lemma_small_mod((pi - r) as nat, pi as nat);
            assert(w == pi * (-k - 1) + (pi - r)) by (nonlinear_arith)
                requires
                    -w == pi * k + r,
            ;
            lemma_fundamental_div_mod_converse(w, pi, -k - 1, pi - r);
        }
    } else {
        let up: int = vi * pi + mid;
        assert(up == qi * w + (delta + mid));
        lemma_fundamental_div_mod_converse(up, qi, w, delta + mid);
    }
}

/// A sum over words that are congruent to integer coefficients is congruent
/// to the value of the polynomial with these coefficients.
pub proof fn lemma_sum_is_eval(a: Seq<u64>, off: int, c: Seq<int>, x: int, q: int, k: int)
    requires
        q > 0,
        k >= 0,
        forall|j: int| 0 <= j < k ==> (#[trigger] a[off + j] as int) % q == c[j] % q,
    ensures
        power_sum(a, off, x, 0, 1, k) % q == eval(c, x, k) % q,
    decreases k,
{
    if k > 0 {
        lemma_sum_is_eval(a, off, c, x, q, k - 1);
        let pw: int = pow(x, (k - 1) as nat);
        assert((0 + 1 * (k - 1)) as nat == (k - 1) as nat);
        assert((a[off + (k - 1)] as int) % q == c[k - 1] % q);
        lemma_mul_congruent(a[off + k - 1] as int, c[k - 1], pw, pw, q);
        lemma_add_congruent(
            power_sum(a, off, x, 0, 1, k - 1),
            eval(c, x, k - 1),
            (a[off + k - 1] as int) * pw,
            c[k - 1] * pw,
            q,
        );
    }
}

/// The polynomial with the integer coefficients `c`, every coefficient
/// reduced modulo the ciphertext modulus.
pub open spec fn reduced(params: &Params, c: Seq<int>) -> Seq<u64> {
    Seq::new(params.poly_len as nat, |i: int| (c[i] % (params.modulus as int)) as u64)
}

/// A column whose phase is, at every position, the value of a polynomial
/// with integer coefficients decrypts to that polynomial, reduced modulo
/// the ciphertext modulus.
pub proof fn lemma_decrypts_to_reduced(
    params: &Params,
    data: Seq<u64>,
    cols: int,
    c: int,
    s: Seq<u64>,
    poly: Seq<int>,
)
    requires
        params.wf(),
        poly.len() == params.poly_len,
        forall|n: int, z: int|
            0 <= n < params.crt_count && 0 <= z < params.poly_len ==> #[trigger] column_phase(
                params,
                data,
                cols,
                c,
                s[n * params.poly_len + z] as int,
                n,
                z,
            ) % params.q(n) == eval(
                poly,
                pow(params.roots@[n] as int, (2 * z + 1) as nat),
                params.poly_len as int,
            ) % params.q(n),
    ensures
        decrypted(params, data, cols, c, s) == reduced(params, poly),
{
    let len: int = params.poly_len as int;
    let big: int = params.modulus as int;
    let m: Seq<u64> = reduced(params, poly);
    assert(params.residue_wf(0));
    assert forall|i: int| 0 <= i < m.len() implies #[trigger] m[i] < params.modulus by {
        lemma_mod_bound(poly[i], big);
    }
    assert forall|n: int, z: int|
        0 <= n < params.crt_count && 0 <= z < params.poly_len implies #[trigger] column_phase(
        params,
        data,
        cols,
        c,
        s[n * params.poly_len + z] as int,
        n,
        z,
    ) % params.q(n) == forward_coeff(
        m,
        0,
        params.poly_len as int,
        params.roots@[n] as int,
        params.q(n),
        z,
    ) by {
        let q: int = params.q(n);
        let psi: int = params.roots@[n] as int;
        assert(params.residue_wf(n));
        let x0: int = pow(psi, (2 * z + 1) as nat);
        lemma_sum_repower(m, 0, psi, 2 * z + 1, len);
        assert forall|i: int| 0 <= i < len implies (#[trigger] m[0 + i] as int) % q == poly[i]
            % q by {
            let v: int = poly[i];
            lemma_mod_bound(v, big);
            assert(m[i] as int == v % big);
            if params.crt_count == 1 {
                lemma_mod_twice(v, q);
            } else {
                assert(params.residue_wf(1));
                if n == 0 {
                    lemma_mod_mod(v, params.q(0), params.q(1));
                } else {
                    lemma_mod_mod(v, params.q(1), params.q(0));
                    lemma_mul_is_commutative(params.q(0), params.q(1));
                }
            }
        }
        lemma_sum_is_eval(m, 0, poly, x0, q, len);
    }
    lemma_decrypts_to(params, data, cols, c, s, m);
}

/// The sum over the first `k` pairs of the products in the ring of the
/// polynomials `a[k']` and `b[k']`, of `len` coefficients each.
pub open spec fn total(a: Seq<Seq<int>>, b: Seq<Seq<int>>, len: int, k: int) -> Seq<int>
    decreases k,
{
    if k <= 0 {
        Seq::new(len as nat, |z: int| 0int)
    } else {
        Seq::new(
            len as nat,
            |z: int| total(a, b, len, k - 1)[z] + conv(a[k - 1], b[k - 1], len)[z],
        )
    }
}

/// The sum of the phases times the database entries is the value of the sum
/// of the products in the ring of what the ciphertexts decrypt to and the
/// database polynomials.
proof fn lemma_phase_sum_is_eval(
    db: Seq<u64>,
    v: Seq<u64>,
    a_base: int,
    b_base: int,
    s: int,
    n: int,
    a: Seq<Seq<int>>,
    b: Seq<Seq<int>>,
    x: int,
    q: int,
    len: int,
    k: int,
)
    requires
        q >= 2,
        len >= 1,
        is_root(x, len, q),
        0 <= k <= a.len(),
        k <= b.len(),
        forall|i: int| 0 <= i < k ==> (#[trigger] a[i]).len() == len && b[i].len() == len,
        forall|i: int|
            0 <= i < k ==> #[trigger] phase(v, a_base, s, n, i) % q == eval(a[i], x, len) % q,
        forall|i: int|
            0 <= i < k ==> packed_residue(#[trigger] db[b_base + i], n) % q == eval(b[i], x, len)
                % q,
    ensures
        phase_sum(db, v, a_base, b_base, s, n, k) % q == eval(total(a, b, len, k), x, len) % q,
    decreases k,
{
    if k > 0 {
        assert forall|i: int| 0 <= i < k - 1 implies (#[trigger] a[i]).len() == len && b[i].len()
            == len by {
            assert(0 <= i < k);
        }
        assert forall|i: int| 0 <= i < k - 1 implies #[trigger] phase(v, a_base, s, n, i) % q
            == eval(a[i], x, len) % q by {
            assert(0 <= i < k);
        }
        assert forall|i: int| 0 <= i < k - 1 implies packed_residue(
            #[trigger] db[b_base + i],
            n,
        ) % q == eval(b[i], x, len) % q by {
            assert(0 <= i < k);
        }
        lemma_phase_sum_is_eval(db, v, a_base, b_base, s, n, a, b, x, q, len, k - 1);
        let i: int = k - 1;
        assert(a[i].len() == len && b[i].len() == len);
        lemma_eval_conv(a[i], b[i], x, q, len);
        let prod: Seq<int> = conv(a[i], b[i], len);
        let before: Seq<int> = total(a, b, len, k - 1);
        let cur: Seq<int> = total(a, b, len, k);
        assert forall|z: int| 0 <= z < len implies #[trigger] cur[z] == before[z] + 1 * prod[z] by {}
        lemma_eval_add_scaled(cur, before, prod, 1, x, len);
        let ph: int = phase(v, a_base, s, n, i);
        let d: int = packed_residue(db[b_base + i], n);
        assert(db[b_base + (k - 1)] == db[b_base + i]);
        lemma_mul_congruent(ph, eval(a[i], x, len), d, eval(b[i], x, len), q);
        lemma_add_congruent(
            phase_sum(db, v, a_base, b_base, s, n, k - 1),
            eval(before, x, len),
            ph * d,
            eval(prod, x, len),
            q,
        );
        assert(1 * eval(prod, x, len) == eval(prod, x, len));
    } else {
        lemma_eval_zero(total(a, b, len, 0), x, len);
    }
}

/// The query is one-hot up to noise: ciphertext `k` decrypts to the
/// polynomial `a[k]`, whose coefficients are at most `noise` in absolute
/// value but for the constant coefficient at `k0`, which is that close to
/// `scale`.
pub open spec fn one_hot_up_to(a: Seq<Seq<int>>, len: int, k0: int, scale: int, noise: int) -> bool {
    forall|k: int, j: int|
        0 <= k < a.len() && 0 <= j < len ==> {
            &&& (#[trigger] a[k]).len() == len
            &&& -noise <= #[trigger] a[k][j] - (if k == k0 && j == 0 {
                scale
            } else {
                0
            }) <= noise
        }
}

/// The coefficients of the sum of the products differ from `scale` times
/// those of the database polynomial at `k0` by at most the number of terms
/// times the two bounds.
pub proof fn lemma_total_bounded(
    a: Seq<Seq<int>>,
    b: Seq<Seq<int>>,
    len: int,
    k0: int,
    scale: int,
    noise: int,
    eb: int,
    k: int,
    z: int,
)
    requires
        len >= 1,
        noise >= 0,
        eb >= 0,
        0 <= k <= a.len(),
        k <= b.len(),
        0 <= k0,
        0 <= z < len,
        one_hot_up_to(a, len, k0, scale, noise),
        forall|i: int| 0 <= i < k ==> (#[trigger] b[i]).len() == len && bounded(b[i], eb),
    ensures
        -(k * (len * (noise * eb))) <= total(a, b, len, k)[z] - (if k0 < k {
            scale * b[k0][z]
        } else {
            0
        }) <= k * (len * (noise * eb)),
    decreases k,
{
    if k > 0 {
        lemma_total_bounded(a, b, len, k0, scale, noise, eb, k - 1, z);
        let i: int = k - 1;
        let ai: Seq<int> = a[i];
        let bi: Seq<int> = b[i];
        assert(ai.len() == len) by {
            assert(-noise <= a[i][0] - (if i == k0 && 0 == 0 {
                scale
            } else {
                0
            }) <= noise);
        }
        assert(bi.len() == len && bounded(bi, eb));
        assert forall|j: int| 1 <= j < len implies -noise <= #[trigger] ai[j] <= noise by {
            assert(-noise <= a[i][j] - (if i == k0 && j == 0 {
                scale
            } else {
                0
            }) <= noise);
        }
        lemma_conv_bounded(ai, bi, len, noise, eb, z);
        let signal: int = if i == k0 {
            scale
        } else {
            0
        };
        let e0: int = ai[0] - signal;
        assert(-noise <= a[i][0] - (if i == k0 && 0 == 0 {
            scale
        } else {
            0
        }) <= noise);
        assert(-noise <= e0 <= noise);
        let bz: int = bi[z];
        assert(-eb <= bz <= eb);
        assert(-(noise * eb) <= e0 * bz <= noise * eb) by (nonlinear_arith)
            requires
                -noise <= e0 <= noise,
                -eb <= bz <= eb,
        ;
        let prod: int = conv(ai, bi, len)[z];
        assert(ai[0] * bz == signal * bz + e0 * bz) by (nonlinear_arith)
            requires
                e0 == ai[0] - signal,
        ;
        let unit: int = noise * eb;
        assert(-(len * unit) <= prod - signal * bz <= len * unit) by (nonlinear_arith)
            requires
                -((len - 1) * unit) <= prod - ai[0] * bz <= (len - 1) * unit,
                ai[0] * bz == signal * bz + e0 * bz,
                -unit <= e0 * bz <= unit,
        ;
        assert(total(a, b, len, k)[z] == total(a, b, len, k - 1)[z] + prod);
        assert(k * (len * unit) == (k - 1) * (len * unit) + len * unit) by (nonlinear_arith);
        if i != k0 {
            assert(signal * bz == 0);
        }
    } else {
        assert(0 * (len * (noise * eb)) == 0);
    }
}

/// The number that the plaintext residue `r` modulo `p` stands for when
/// the upper half of the residues stands for negative numbers.
pub open spec fn centered_plain(r: u64, p: u64) -> int {
    if r > p / 2 {
        r - p
    } else {
        r as int
    }
}

/// The plaintext polynomials of the items `(k, i)` for every `k` of the
/// first dimension, with centered coefficients: the first polynomial of
/// each item.
pub open spec fn item_polys(params: &Params, words: Seq<u64>, i: int) -> Seq<Seq<int>> {
    Seq::new(
        pow2(params.db_dim_1 as nat),
        |k: int|
            Seq::new(
                params.poly_len as nat,
                |z: int|
                    centered_plain(
                        plain_word(
                            params,
                            words,
                            (k * pow2(params.db_dim_2 as nat) + i) * params.poly_len + z,
                        ),
                        params.pt_modulus,
                    ),
            ),
    )
}

/// Under the key whose transform is `s`, ciphertext `k` of the packed query
/// decrypts to the polynomial `a[k]`: at every position its phase is the
/// value of `a[k]` at the point of the position.
pub open spec fn query_decrypts_to(
    params: &Params,
    v: Seq<u64>,
    s: Seq<u64>,
    dim0: int,
    a: Seq<Seq<int>>,
) -> bool {
    forall|n: int, z: int, k: int|
        0 <= n < 2 && 0 <= z < params.poly_len && 0 <= k < dim0 ==> #[trigger] phase(
            v,
            z * (dim0 * 2),
            s[n * params.poly_len + z] as int,
            n,
            k,
        ) % params.q(n) == eval(
            a[k],
            pow(params.roots@[n] as int, (2 * z + 1) as nat),
            params.poly_len as int,
        ) % params.q(n)
}

/// Retrieval with noise. Where the ciphertexts of the packed query decrypt
/// to polynomials that are one-hot at `k0` up to a noise of at most `noise`
/// in every coefficient, the database is the one made from the random
/// words `words`, and the noise is within the budget
/// `2 * p * (2^db_dim_1 * poly_len * noise * (p / 2) + p / 2) < q`:
/// decrypting output `i` of the inner product and scaling every
/// coefficient down to a plaintext residue gives the first polynomial of
/// the plaintext of item `k0 * 2^db_dim_2 + i`.
pub proof fn lemma_noisy_query_retrieves(
    params: &Params,
    out: Seq<PolyMatrixNTT>,
    v: Seq<u64>,
    s: Seq<u64>,
    words: Seq<u64>,
    i: int,
    k0: int,
    a: Seq<Seq<int>>,
    noise: int,
)
    requires
        params.wf(),
        params.crt_count == 2,
        words.len() == db_size(params),
        0 <= i < pow2(params.db_dim_2 as nat),
        0 <= k0 < pow2(params.db_dim_1 as nat),
        noise >= 0,
        a.len() == pow2(params.db_dim_1 as nat),
        one_hot_up_to(
            a,
            params.poly_len as int,
            k0,
            (params.modulus / params.pt_modulus) as int,
            noise,
        ),
        query_decrypts_to(params, v, s, pow2(params.db_dim_1 as nat) as int, a),
        2 * (params.pt_modulus * (pow2(params.db_dim_1 as nat) * (params.poly_len * (noise * (
        params.pt_modulus / 2))) + params.pt_modulus / 2)) < params.modulus,
        is_first_dim_product(
            params,
            out,
            db_data(params, words),
            v,
            pow2(params.db_dim_1 as nat) as int,
            pow2(params.db_dim_2 as nat) as int,
        ),
    ensures
        forall|z: int|
            0 <= z < params.poly_len ==> rescaled(
                #[trigger] decrypted(params, out[i].data@, 1, 0, s)[z],
                params.modulus,
                params.pt_modulus,
            ) == item_word(params, words, k0 * pow2(params.db_dim_2 as nat) + i, z),
{
    let len: int = params.poly_len as int;
    let dim0: int = pow2(params.db_dim_1 as nat) as int;
    let num_per: int = pow2(params.db_dim_2 as nat) as int;
    let big: int = params.modulus as int;
    let p: int = params.pt_modulus as int;
    let half: int = (params.pt_modulus / 2) as int;
    let scale: int = (params.modulus / params.pt_modulus) as int;
    let db: Seq<u64> = db_data(params, words);
    let rec: Seq<u64> = recentered(params, words);
    let b: Seq<Seq<int>> = item_polys(params, words, i);
    let sum: Seq<int> = total(a, b, len, dim0);
    let m: Seq<u64> = Seq::new(len as nat, |z: int| (sum[z] % big) as u64);
    let ct: Seq<u64> = out[i].data@;
    assert(params.residue_wf(0) && params.residue_wf(1));
    lemma_mul_is_commutative(params.q(0), params.q(1));
    lemma_fundamental_div_mod(p, 2);
    // the plaintext polynomials are bounded by half the plaintext modulus,
    // and the recentered words are congruent to them
    assert forall|k: int| 0 <= k < dim0 implies (#[trigger] b[k]).len() == len && bounded(
        b[k],
        half,
    ) by {
        assert forall|z: int| 0 <= z < b[k].len() implies -half <= #[trigger] b[k][z] <= half by {
            let at: int = (k * num_per + i) * len + z;
            lemma_mod_bound((words[at] as int) % big, p);
        }
    }
    assert forall|z: int| 0 <= z < m.len() implies #[trigger] m[z] < params.modulus by {
        lemma_mod_bound(sum[z], big);
    }
    assert forall|n: int, z: int|
        0 <= n < params.crt_count && 0 <= z < params.poly_len implies #[trigger] column_phase(
        params,
        ct,
        1,
        0,
        s[n * params.poly_len + z] as int,
        n,
        z,
    ) % params.q(n) == forward_coeff(m, 0, len, params.roots@[n] as int, params.q(n), z) by {
        let q: int = params.q(n);
        let other: int = if n == 0 {
            params.q(1)
        } else {
            params.q(0)
        };
        assert(big == q * other);
        let psi: int = params.roots@[n] as int;
        let x: int = pow(psi, (2 * z + 1) as nat);
        let sv: int = s[n * len + z] as int;
        assert(params.residue_wf(n));
        lemma_point_is_root(psi, len, q, z);
        let a_base: int = z * (dim0 * 2);
        let b_base: int = z * (num_per * dim0) + i * dim0;
        // the phase of the output is the sum of the phases times the entries
        let f1: int = first_dim_coeff(params, db, v, dim0, num_per, i, 1, n, z);
        let f0: int = first_dim_coeff(params, db, v, dim0, num_per, i, 0, n, z);
        assert(ct[ntt_index(params, 1, 1, 0, n, z)] as int == f1);
        assert(ct[ntt_index(params, 1, 0, 0, n, z)] as int == f0);
        lemma_first_dim_product_decrypts(params, db, v, dim0, num_per, i, n, z, sv);
        // every database entry is the value of its plaintext polynomial
        assert forall|k: int| 0 <= k < dim0 implies packed_residue(#[trigger] db[b_base + k], n)
            % q == eval(b[k], x, len) % q by {
            lemma_db_entry(params, words, i, k, n, z);
            let off: int = (k * num_per + i) * len;
            lemma_sum_repower(rec, off, psi, 2 * z + 1, len);
            assert forall|j: int| 0 <= j < len implies (#[trigger] rec[off + j] as int) % q
                == b[k][j] % q by {
                let r: u64 = plain_word(params, words, off + j);
                lemma_mod_bound((words[off + j] as int) % big, p);
                assert(rec[off + j] == recenter(r, params.pt_modulus, params.modulus));
                assert(b[k][j] == centered_plain(r, params.pt_modulus));
                if r > params.pt_modulus / 2 {
                    lemma_mul_is_commutative(q, other);
                    lemma_mod_multiples_vanish(other, r - p, q);
                    assert(q * other + (r - p) == r + big - p);
                }
            }
            lemma_sum_is_eval(rec, off, b[k], x, q, len);
            lemma_mod_twice(power_sum(rec, off, psi, 0, 2 * z + 1, len), q);
        }
        assert forall|k: int| 0 <= k < dim0 implies #[trigger] phase(v, a_base, sv, n, k) % q
            == eval(a[k], x, len) % q by {
            assert(phase(v, z * (dim0 * 2), s[n * params.poly_len + z] as int, n, k) % params.q(n)
                == eval(a[k], pow(params.roots@[n] as int, (2 * z + 1) as nat), len) % params.q(
                n,
            ));
        }
        assert forall|k: int| 0 <= k < dim0 implies (#[trigger] a[k]).len() == len && b[k].len()
            == len by {
            assert(-noise <= a[k][0] - (if k == k0 && 0 == 0 {
                scale
            } else {
                0
            }) <= noise);
            assert(b[k].len() == len);
        }
        lemma_phase_sum_is_eval(db, v, a_base, b_base, sv, n, a, b, x, q, len, dim0);
        // and the transform of the reduced sum has the same value
        lemma_sum_repower(m, 0, psi, 2 * z + 1, len);
        assert forall|j: int| 0 <= j < len implies (#[trigger] m[0 + j] as int) % q == sum[j]
            % q by {
            lemma_mod_bound(sum[j], big);
            lemma_mod_mod(sum[j], q, other);
        }
        lemma_sum_is_eval(m, 0, sum, x, q, len);
        lemma_mod_twice(power_sum(m, 0, psi, 0, 2 * z + 1, len), q);
    }
    lemma_decrypts_to(params, ct, 1, 0, s, m);
    lemma_db_entry(params, words, i, k0, 0, 0);
    assert forall|z: int| 0 <= z < params.poly_len implies rescaled(
        #[trigger] decrypted(params, ct, 1, 0, s)[z],
        params.modulus,
        params.pt_modulus,
    ) == item_word(params, words, k0 * pow2(params.db_dim_2 as nat) + i, z) by {
        let item: int = k0 * num_per + i;
        let off: int = item * len;
        let r: u64 = plain_word(params, words, off + z);
        lemma_mod_bound((words[off + z] as int) % big, p);
        let x: int = b[k0][z];
        assert(x == centered_plain(r, params.pt_modulus));
        assert(b[k0].len() == len && bounded(b[k0], half));
        assert(-half <= b[k0][z] <= half);
        lemma_total_bounded(a, b, len, k0, scale, noise, half, dim0, z);
        let bound: int = dim0 * (len * (noise * half));
        let rest: int = sum[z] - scale * x;
        assert(m[z] as int == sum[z] % big);
        lemma_mod_bound(sum[z], big);
        assert(bound >= 0) by (nonlinear_arith)
            requires
                bound == dim0 * (len * (noise * half)),
                dim0 >= 0,
                len >= 0,
                noise >= 0,
                half >= 0,
        ;
        lemma_rescale_with_noise(params.modulus, params.pt_modulus, m[z], x, rest, half, bound);
        // the residue of the centered plaintext is the plaintext
        if r > params.pt_modulus / 2 {
            lemma_mod_add_multiples_vanish(r - p, p);
            lemma_small_mod(r as nat, p as nat);
        } else {
            lemma_small_mod(r as nat, p as nat);
        }
        lemma_split(0, z, len);
        assert(0 * len + z == z);
        assert((0 * num_items(params) + item) * len + z == off + z) by (nonlinear_arith)
            requires
                off == item * len,
        ;
    }
}

} // verus!
