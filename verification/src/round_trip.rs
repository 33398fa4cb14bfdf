//! The inverse transform undoes the transform: the powers of a root of
//! unity of order `2 * poly_len` are orthogonal.

use vstd::prelude::*;
use vstd::arithmetic::div_mod::*;
use vstd::arithmetic::mul::*;
use vstd::arithmetic::power::*;
use crate::arith::{lemma_add_congruent, lemma_mul_congruent, lemma_pow_square};
use crate::ntt::{forward_coeff, inverse_coeff, power_sum};
use crate::params::{is_root, is_two_power, Params};
use crate::poly::{
    crt_compose, from_ntt_data, from_ntt_word, lemma_block_bound, lemma_div_lt, lemma_ntt_coords,
    lemma_ntt_index, lemma_split, ntt_index, position_of, residue_of, to_ntt_data, to_ntt_word,
};

verus! {

/// The geometric sum `1 + x + ... + x^(m-1)`.
pub open spec fn geo(x: int, m: int) -> int
    decreases m,
{
    if m <= 0 {
        0
    } else {
        geo(x, m - 1) + pow(x, (m - 1) as nat)
    }
}

/// A geometric sum of `m + k` terms is the sum of the first `m` terms plus
/// `x^m` times the sum of the first `k` terms.
proof fn lemma_geo_append(x: int, m: int, k: int)
    requires
        0 <= m,
        0 <= k,
    ensures
        geo(x, m + k) == geo(x, m) + pow(x, m as nat) * geo(x, k),
    decreases k,
{
    if k > 0 {
        lemma_geo_append(x, m, k - 1);
        lemma_pow_adds(x, m as nat, (k - 1) as nat);
        let g: int = geo(x, k - 1);
        let pm: int = pow(x, m as nat);
        let pk: int = pow(x, (k - 1) as nat);
        assert(pm * (g + pk) == pm * g + pm * pk) by (nonlinear_arith);
    } else {
        assert(pow(x, m as nat) * 0 == 0);
    }
}

/// Geometric sums of congruent numbers are congruent.
proof fn lemma_geo_congruent(x: int, y: int, q: int, m: int)
    requires
        q > 0,
        0 <= m,
        x % q == y % q,
    ensures
        geo(x, m) % q == geo(y, m) % q,
    decreases m,
{
    if m > 0 {
        lemma_geo_congruent(x, y, q, m - 1);
        lemma_pow_mod_noop(x, (m - 1) as nat, q);
        lemma_pow_mod_noop(y, (m - 1) as nat, q);
        lemma_add_congruent(
            geo(x, m - 1),
            geo(y, m - 1),
            pow(x, (m - 1) as nat),
            pow(y, (m - 1) as nat),
            q,
        );
    }
}

/// The geometric sum of a number that is one modulo `q` is the number of
/// its terms modulo `q`.
proof fn lemma_geo_of_one(x: int, q: int, m: int)
    requires
        q > 1,
        0 <= m,
        x % q == 1,
    ensures
        geo(x, m) % q == m % q,
    decreases m,
{
    if m > 0 {
        lemma_geo_of_one(x, q, m - 1);
        lemma_pow_mod_noop(x, (m - 1) as nat, q);
        lemma1_pow((m - 1) as nat);
        lemma_small_mod(1, q as nat);
        lemma_add_congruent(geo(x, m - 1), m - 1, pow(x, (m - 1) as nat), 1, q);
    }
}

/// An odd power of a number that is `-1` modulo `q` is `-1` modulo `q`,
/// and an even power is one.
pub proof fn lemma_pow_minus_one(x: int, q: int, d: int)
    requires
        q >= 2,
        0 <= d,
        x % q == q - 1,
    ensures
        pow(x, d as nat) % q == (if d % 2 == 0 {
            1
        } else {
            q - 1
        }),
    decreases d,
{
    lemma_small_mod(1, q as nat);
    lemma_small_mod((q - 1) as nat, q as nat);
    if d == 0 {
        lemma_pow0(x);
    } else {
        lemma_pow_minus_one(x, q, d - 1);
        lemma_pow_adds(x, (d - 1) as nat, 1);
        lemma_pow1(x);
        let prev: int = pow(x, (d - 1) as nat);
        if (d - 1) % 2 == 0 {
            lemma_mul_congruent(prev, 1, x, q - 1, q);
            assert(1 * (q - 1) == q - 1);
        } else {
            lemma_mul_congruent(prev, q - 1, x, q - 1, q);
            assert((q - 1) * (q - 1) == q * (q - 2) + 1) by (nonlinear_arith);
            lemma_fundamental_div_mod_converse((q - 1) * (q - 1), q, q - 2, 1);
        }
    }
}

/// The powers `r^(2d)`, for `0 < d < len`, of a root of unity `r` of order
/// `2 * len` have a geometric sum over `len` terms that vanishes modulo `q`.
proof fn lemma_geo_vanishes(r: int, q: int, len: int, d: int)
    requires
        q >= 2,
        is_two_power(len),
        is_root(r, len, q),
        0 < d < len,
    ensures
        geo(pow(r, (2 * d) as nat), len) % q == 0,
    decreases len,
{
    let m: int = len / 2;
    let x: int = pow(r, (2 * d) as nat);
    assert(len == 2 * m && is_two_power(m));
    lemma_geo_append(x, m, m);
    // x^m = (r^len)^d
    lemma_pow_multiplies(r, (2 * d) as nat, m as nat);
    lemma_pow_multiplies(r, len as nat, d as nat);
    assert(((2 * d) as nat) * (m as nat) == (len as nat) * (d as nat)) by (nonlinear_arith)
        requires
            len == 2 * m,
            d >= 0,
            m >= 0,
    ;
    let xm: int = pow(x, m as nat);
    assert(xm == pow(pow(r, len as nat), d as nat));
    lemma_pow_minus_one(pow(r, len as nat), q, d);
    let g: int = geo(x, m);
    assert(geo(x, len) == (1 + xm) * g) by (nonlinear_arith)
        requires
            geo(x, m + m) == g + xm * g,
            len == m + m,
    ;
    lemma_small_mod(0, q as nat);
    if d % 2 == 1 {
        // 1 + x^m vanishes
        lemma_small_mod(1, q as nat);
        lemma_small_mod((q - 1) as nat, q as nat);
        lemma_add_congruent(1, 1, xm, q - 1, q);
        lemma_mod_self_0(q);
        assert((1 + xm) % q == 0);
        lemma_mul_congruent(1 + xm, 0, g, g, q);
        assert(0 * g == 0);
    } else {
        // the sum over the first half vanishes: x = (r^2)^(2 * (d / 2))
        let e: int = d / 2;
        assert(d == 2 * e && 0 < e < m);
        lemma_pow_square(r, len as nat / 2);
        assert(len as nat / 2 == m as nat);
        assert(2 * (m as nat) == len as nat);
        assert(is_root(r * r, m, q));
        lemma_geo_vanishes(r * r, q, m, e);
        lemma_pow_square(r, (2 * e) as nat);
        assert(2 * ((2 * e) as nat) == (2 * d) as nat);
        assert(x == pow(r * r, (2 * e) as nat));
        lemma_mul_congruent(1 + xm, 1 + xm, g, 0, q);
        assert((1 + xm) * 0 == 0);
    }
}

/// The number below `q0 * q1` that has the residues of `x` is `x`.
pub proof fn lemma_crt_compose(x: int, q0: int, q1: int, inv: int)
    requires
        q0 >= 1,
        q1 >= 1,
        0 <= x < q0 * q1,
        (q0 * inv) % q1 == 1,
    ensures
        (x % q0) + q0 * ((((x % q1) + q1 - (x % q0) % q1) * inv) % q1) == x,
{
    let x0: int = x % q0;
    let x1: int = x % q1;
    let t: int = x / q0;
    lemma_fundamental_div_mod(x, q0);
    lemma_mod_bound(x, q0);
    lemma_mod_bound(x, q1);
    lemma_mod_bound(x0, q1);
    assert(0 <= t < q1) by (nonlinear_arith)
        requires
            x == q0 * t + x0,
            0 <= x0 < q0,
            0 <= x < q0 * q1,
            q0 >= 1,
    ;
    let diff: int = x1 + q1 - x0 % q1;
    // diff is q0 * t modulo q1
    lemma_sub_mod_noop(x, x0, q1);
    lemma_mod_add_multiples_vanish(x1 - x0 % q1, q1);
    assert(diff % q1 == (x - x0) % q1);
    assert(x - x0 == q0 * t);
    // (q0 * t * inv) is t modulo q1
    lemma_mul_congruent(diff, q0 * t, inv, inv, q1);
    assert((q0 * t) * inv == t * (q0 * inv)) by (nonlinear_arith);
    if q1 == 1 {
        assert((q0 * inv) % 1 == 0);
    }
    lemma_small_mod(1, q1 as nat);
    lemma_mul_congruent(t, t, q0 * inv, 1, q1);
    assert(t * 1 == t);
    lemma_small_mod(t as nat, q1 as nat);
    assert((diff * inv) % q1 == t);
}

/// What the coefficient `c` at index `i` contributes, through position `z`
/// of the transform, to coefficient `j` of the inverse transform: `c` times
/// `psi^((2z+1) i)` times `phi^((2z+1) j)`.
pub open spec fn cross(c: int, psi: int, phi: int, i: int, j: int, z: int) -> int {
    c * (pow(psi, ((2 * z + 1) * i) as nat) * pow(phi, ((2 * z + 1) * j) as nat))
}

/// The contributions through position `z` of the first `k` coefficients.
pub open spec fn row_sum(a: Seq<u64>, off: int, psi: int, phi: int, j: int, z: int, k: int) -> int
    decreases k,
{
    if k <= 0 {
        0
    } else {
        row_sum(a, off, psi, phi, j, z, k - 1) + cross(a[off + k - 1] as int, psi, phi, k - 1, j, z)
    }
}

/// The contributions of the coefficient `c` at index `i` through the first
/// `m` positions.
pub open spec fn col_sum(c: int, psi: int, phi: int, i: int, j: int, m: int) -> int
    decreases m,
{
    if m <= 0 {
        0
    } else {
        col_sum(c, psi, phi, i, j, m - 1) + cross(c, psi, phi, i, j, m - 1)
    }
}

/// All contributions of the first `k` coefficients through the first `m`
/// positions, summed position by position.
pub open spec fn grid_rows(a: Seq<u64>, off: int, psi: int, phi: int, j: int, m: int, k: int) -> int
    decreases m,
{
    if m <= 0 {
        0
    } else {
        grid_rows(a, off, psi, phi, j, m - 1, k) + row_sum(a, off, psi, phi, j, m - 1, k)
    }
}

/// The same contributions, summed coefficient by coefficient.
pub open spec fn grid_cols(a: Seq<u64>, off: int, psi: int, phi: int, j: int, m: int, k: int) -> int
    decreases k,
{
    if k <= 0 {
        0
    } else {
        grid_cols(a, off, psi, phi, j, m, k - 1) + col_sum(
            a[off + k - 1] as int,
            psi,
            phi,
            k - 1,
            j,
            m,
        )
    }
}

/// One more position adds one more row to the sum by coefficients.
proof fn lemma_grid_cols_step(a: Seq<u64>, off: int, psi: int, phi: int, j: int, m: int, k: int)
    requires
        m >= 1,
        k >= 0,
    ensures
        grid_cols(a, off, psi, phi, j, m, k) == grid_cols(a, off, psi, phi, j, m - 1, k) + row_sum(
            a,
            off,
            psi,
            phi,
            j,
            m - 1,
            k,
        ),
    decreases k,
{
    if k > 0 {
        lemma_grid_cols_step(a, off, psi, phi, j, m, k - 1);
    }
}

/// Without positions there are no contributions.
proof fn lemma_grid_cols_empty(a: Seq<u64>, off: int, psi: int, phi: int, j: int, k: int)
    requires
        k >= 0,
    ensures
        grid_cols(a, off, psi, phi, j, 0, k) == 0,
    decreases k,
{
    if k > 0 {
        lemma_grid_cols_empty(a, off, psi, phi, j, k - 1);
    }
}

/// Both orders of summation give the same sum.
proof fn lemma_grid_exchange(a: Seq<u64>, off: int, psi: int, phi: int, j: int, m: int, k: int)
    requires
        m >= 0,
        k >= 0,
    ensures
        grid_rows(a, off, psi, phi, j, m, k) == grid_cols(a, off, psi, phi, j, m, k),
    decreases m,
{
    if m > 0 {
        lemma_grid_exchange(a, off, psi, phi, j, m - 1, k);
        lemma_grid_cols_step(a, off, psi, phi, j, m, k);
    } else {
        lemma_grid_cols_empty(a, off, psi, phi, j, k);
    }
}

/// A row is the unreduced transform at its position times a power of `phi`.
proof fn lemma_row_sum(a: Seq<u64>, off: int, psi: int, phi: int, j: int, z: int, k: int)
    requires
        j >= 0,
        z >= 0,
        k >= 0,
    ensures
        row_sum(a, off, psi, phi, j, z, k) == power_sum(a, off, psi, 0, 2 * z + 1, k) * pow(
            phi,
            ((2 * z + 1) * j) as nat,
        ),
    decreases k,
{
    let pf: int = pow(phi, ((2 * z + 1) * j) as nat);
    if k > 0 {
        lemma_row_sum(a, off, psi, phi, j, z, k - 1);
        let c: int = a[off + k - 1] as int;
        let s: int = power_sum(a, off, psi, 0, 2 * z + 1, k - 1);
        lemma_mul_nonnegative(2 * z + 1, k - 1);
        let pi: int = pow(psi, ((2 * z + 1) * (k - 1)) as nat);
        assert((0 + (2 * z + 1) * (k - 1)) as nat == ((2 * z + 1) * (k - 1)) as nat);
        assert((s + c * pi) * pf == s * pf + c * (pi * pf)) by (nonlinear_arith);
    } else {
        assert(0 * pf == 0);
    }
}

/// The weighted sum of the inverse transform over the transformed words is
/// the sum of all contributions, modulo `q`.
proof fn lemma_inverse_sum_is_grid(
    a: Seq<u64>,
    off: int,
    b: Seq<u64>,
    off2: int,
    psi: int,
    phi: int,
    q: int,
    len: int,
    j: int,
    m: int,
)
    requires
        q > 0,
        j >= 0,
        0 <= m <= len,
        forall|z: int|
            0 <= z < len ==> (#[trigger] b[off2 + z] as int) % q == power_sum(
                a,
                off,
                psi,
                0,
                2 * z + 1,
                len,
            ) % q,
    ensures
        power_sum(b, off2, phi, j, 2 * j, m) % q == grid_rows(a, off, psi, phi, j, m, len) % q,
    decreases m,
{
    if m > 0 {
        lemma_inverse_sum_is_grid(a, off, b, off2, psi, phi, q, len, j, m - 1);
        let z: int = m - 1;
        lemma_mul_nonnegative(2 * z + 1, j);
        let e: nat = ((2 * z + 1) * j) as nat;
        assert((j + 2 * j * (m - 1)) as nat == e) by (nonlinear_arith)
            requires
                z == m - 1,
                e == (2 * z + 1) * j,
        ;
        let pf: int = pow(phi, e);
        let s: int = power_sum(a, off, psi, 0, 2 * z + 1, len);
        lemma_row_sum(a, off, psi, phi, j, z, len);
        assert((b[off2 + z] as int) % q == s % q);
        assert(b[off2 + m - 1] == b[off2 + z]);
        lemma_mul_congruent(b[off2 + z] as int, s, pf, pf, q);
        lemma_add_congruent(
            power_sum(b, off2, phi, j, 2 * j, m - 1),
            grid_rows(a, off, psi, phi, j, m - 1, len),
            (b[off2 + z] as int) * pf,
            s * pf,
            q,
        );
    }
}

/// The contributions of one coefficient are a geometric sum.
proof fn lemma_col_sum(c: int, psi: int, phi: int, i: int, j: int, m: int)
    requires
        i >= 0,
        j >= 0,
        m >= 0,
    ensures
        col_sum(c, psi, phi, i, j, m) == c * ((pow(psi, i as nat) * pow(phi, j as nat)) * geo(
            (pow(psi, i as nat) * pow(phi, j as nat)) * (pow(psi, i as nat) * pow(phi, j as nat)),
            m,
        )),
    decreases m,
{
    let u: int = pow(psi, i as nat) * pow(phi, j as nat);
    if m > 0 {
        lemma_col_sum(c, psi, phi, i, j, m - 1);
        let z: int = m - 1;
        let e: nat = (2 * z + 1) as nat;
        lemma_mul_nonnegative(2 * z + 1, i);
        lemma_mul_nonnegative(2 * z + 1, j);
        lemma_pow_multiplies(psi, i as nat, e);
        lemma_pow_multiplies(phi, j as nat, e);
        lemma_mul_is_commutative(2 * z + 1, i);
        lemma_mul_is_commutative(2 * z + 1, j);
        assert(((2 * z + 1) * i) as nat == (i as nat) * e);
        assert(((2 * z + 1) * j) as nat == (j as nat) * e);
        lemma_pow_distributes(pow(psi, i as nat), pow(phi, j as nat), e);
        lemma_pow_adds(u, 1, (2 * z) as nat);
        lemma_pow1(u);
        lemma_pow_square(u, z as nat);
        assert(1 + (2 * z) as nat == e);
        assert(2 * (z as nat) == (2 * z) as nat);
        let pz: int = pow(u * u, z as nat);
        assert(cross(c, psi, phi, i, j, z) == c * (u * pz));
        let g: int = geo(u * u, m - 1);
        assert(c * (u * g) + c * (u * pz) == c * (u * (g + pz))) by (nonlinear_arith);
    } else {
        assert(u * 0 == 0);
        assert(c * 0 == 0);
    }
}

/// The inverse of a root of unity of order `2 * len` is one.
pub proof fn lemma_inverse_is_root(psi: int, phi: int, len: int, q: int)
    requires
        q >= 2,
        len >= 1,
        is_root(psi, len, q),
        (psi * phi) % q == 1,
    ensures
        is_root(phi, len, q),
{
    let e: nat = len as nat;
    lemma_pow_distributes(psi, phi, e);
    lemma_pow_mod_noop(psi * phi, e, q);
    lemma1_pow(e);
    lemma_small_mod(1, q as nat);
    lemma_small_mod((q - 1) as nat, q as nat);
    let x: int = pow(phi, e);
    // (q - 1) * x is one modulo q
    lemma_mul_congruent(pow(psi, e), q - 1, x, x, q);
    assert(((q - 1) * x) % q == 1);
    // so x is (q - 1) * (q - 1) * x, which is q - 1 modulo q
    assert((q - 1) * (q - 1) == q * (q - 2) + 1) by (nonlinear_arith);
    lemma_fundamental_div_mod_converse((q - 1) * (q - 1), q, q - 2, 1);
    lemma_mul_congruent((q - 1) * (q - 1), 1, x, x, q);
    assert(1 * x == x);
    lemma_mul_congruent(q - 1, q - 1, (q - 1) * x, 1, q);
    assert((q - 1) * ((q - 1) * x) == ((q - 1) * (q - 1)) * x) by (nonlinear_arith);
    assert((q - 1) * 1 == q - 1);
}

/// `psi^i * phi^i` is one modulo `q` where `psi * phi` is.
pub proof fn lemma_paired_powers(psi: int, phi: int, q: int, i: int)
    requires
        q >= 2,
        i >= 0,
        (psi * phi) % q == 1,
    ensures
        (pow(psi, i as nat) * pow(phi, i as nat)) % q == 1,
{
    lemma_pow_distributes(psi, phi, i as nat);
    lemma_pow_mod_noop(psi * phi, i as nat, q);
    lemma1_pow(i as nat);
    lemma_small_mod(1, q as nat);
}

/// The contributions of the coefficient at `j` itself add up to `len` times
/// the coefficient; those of every other coefficient cancel.
proof fn lemma_col_sum_value(c: int, psi: int, phi: int, q: int, len: int, i: int, j: int)
    requires
        q >= 2,
        is_two_power(len),
        is_root(psi, len, q),
        (psi * phi) % q == 1,
        0 <= i < len,
        0 <= j < len,
    ensures
        col_sum(c, psi, phi, i, j, len) % q == (if i == j {
            c * len
        } else {
            0
        }) % q,
{
    let pi: int = pow(psi, i as nat);
    let pj: int = pow(phi, j as nat);
    let u: int = pi * pj;
    lemma_col_sum(c, psi, phi, i, j, len);
    lemma_small_mod(1, q as nat);
    lemma_small_mod(0, q as nat);
    let g: int = geo(u * u, len);
    if i == j {
        lemma_paired_powers(psi, phi, q, i);
        lemma_mul_congruent(u, 1, u, 1, q);
        assert(1 * 1 == 1);
        lemma_geo_of_one(u * u, q, len);
        lemma_mul_congruent(u, 1, g, len, q);
        assert(1 * len == len);
        lemma_mul_congruent(c, c, u * g, len, q);
    } else {
        if i > j {
            let d: int = i - j;
            // u is psi^d times a number that is one
            lemma_pow_adds(psi, d as nat, j as nat);
            lemma_paired_powers(psi, phi, q, j);
            let pd: int = pow(psi, d as nat);
            let one: int = pow(psi, j as nat) * pj;
            assert(u == pd * one) by (nonlinear_arith)
                requires
                    u == pi * pj,
                    pi == pd * pow(psi, j as nat),
                    one == pow(psi, j as nat) * pj,
            ;
            lemma_mul_congruent(pd, pd, one, 1, q);
            assert(pd * 1 == pd);
            lemma_mul_congruent(u, pd, u, pd, q);
            lemma_pow_adds(psi, d as nat, d as nat);
            assert(d as nat + d as nat == (2 * d) as nat);
            lemma_geo_congruent(u * u, pow(psi, (2 * d) as nat), q, len);
            lemma_geo_vanishes(psi, q, len, d);
        } else {
            let d: int = j - i;
            lemma_inverse_is_root(psi, phi, len, q);
            lemma_pow_adds(phi, d as nat, i as nat);
            lemma_paired_powers(psi, phi, q, i);
            let pd: int = pow(phi, d as nat);
            let one: int = pi * pow(phi, i as nat);
            assert(u == pd * one) by (nonlinear_arith)
                requires
                    u == pi * pj,
                    pj == pd * pow(phi, i as nat),
                    one == pi * pow(phi, i as nat),
            ;
            lemma_mul_congruent(pd, pd, one, 1, q);
            assert(pd * 1 == pd);
            lemma_mul_congruent(u, pd, u, pd, q);
            lemma_pow_adds(phi, d as nat, d as nat);
            assert(d as nat + d as nat == (2 * d) as nat);
            lemma_geo_congruent(u * u, pow(phi, (2 * d) as nat), q, len);
            lemma_geo_vanishes(phi, q, len, d);
        }
        assert(g % q == 0);
        lemma_mul_congruent(u, u, g, 0, q);
        assert(u * 0 == 0);
        lemma_mul_congruent(c, c, u * g, 0, q);
        assert(c * 0 == 0);
    }
}

/// Of all contributions only those of the coefficient at `j` remain.
proof fn lemma_grid_cols_value(
    a: Seq<u64>,
    off: int,
    psi: int,
    phi: int,
    q: int,
    len: int,
    j: int,
    k: int,
)
    requires
        q >= 2,
        is_two_power(len),
        is_root(psi, len, q),
        (psi * phi) % q == 1,
        0 <= j < len,
        0 <= k <= len,
    ensures
        grid_cols(a, off, psi, phi, j, len, k) % q == (if j < k {
            (a[off + j] as int) * len
        } else {
            0
        }) % q,
    decreases k,
{
    if k > 0 {
        lemma_grid_cols_value(a, off, psi, phi, q, len, j, k - 1);
        let c: int = a[off + k - 1] as int;
        lemma_col_sum_value(c, psi, phi, q, len, k - 1, j);
        let before: int = if j < k - 1 {
            (a[off + j] as int) * len
        } else {
            0
        };
        let here: int = if k - 1 == j {
            c * len
        } else {
            0
        };
        lemma_add_congruent(
            grid_cols(a, off, psi, phi, j, len, k - 1),
            before,
            col_sum(c, psi, phi, k - 1, j, len),
            here,
            q,
        );
    }
}

/// The inverse transform of the transform of a polynomial is the polynomial,
/// modulo the modulus: where the words of `b` from `off2` on hold the
/// transform of the coefficients of `a` from `off` on, coefficient `j` of
/// the inverse transform of `b` is the residue of coefficient `j` of `a`.
pub proof fn lemma_inverse_of_forward(
    params: &Params,
    n: int,
    a: Seq<u64>,
    off: int,
    b: Seq<u64>,
    off2: int,
    j: int,
)
    requires
        params.wf(),
        0 <= n < params.crt_count,
        0 <= j < params.poly_len,
        forall|z: int|
            0 <= z < params.poly_len ==> (#[trigger] b[off2 + z]) as int == forward_coeff(
                a,
                off,
                params.poly_len as int,
                params.roots@[n] as int,
                params.q(n),
                z,
            ),
    ensures
        inverse_coeff(
            b,
            off2,
            params.poly_len as int,
            params.inv_roots@[n] as int,
            params.inv_poly_len@[n] as int,
            params.q(n),
            j,
        ) == (a[off + j] as int) % params.q(n),
{
    let q: int = params.q(n);
    let len: int = params.poly_len as int;
    let psi: int = params.roots@[n] as int;
    let phi: int = params.inv_roots@[n] as int;
    let li: int = params.inv_poly_len@[n] as int;
    assert(params.residue_wf(n));
    assert forall|z: int| 0 <= z < len implies (#[trigger] b[off2 + z] as int) % q == power_sum(
        a,
        off,
        psi,
        0,
        2 * z + 1,
        len,
    ) % q by {
        lemma_mod_twice(power_sum(a, off, psi, 0, 2 * z + 1, len), q);
    }
    lemma_inverse_sum_is_grid(a, off, b, off2, psi, phi, q, len, j, len);
    lemma_grid_exchange(a, off, psi, phi, j, len, len);
    lemma_grid_cols_value(a, off, psi, phi, q, len, j, len);
    let t: int = power_sum(b, off2, phi, j, 2 * j, len);
    let c: int = a[off + j] as int;
    assert(t % q == (c * len) % q);
    lemma_mul_congruent(li, li, t, c * len, q);
    assert(li * (c * len) == c * (len * li)) by (nonlinear_arith);
    lemma_small_mod(1, q as nat);
    lemma_mul_congruent(c, c, len * li, 1, q);
    assert(c * 1 == c);
}

/// The words of one residue block of the transform of `raw` are the
/// transform of the polynomial that the block belongs to.
proof fn lemma_transformed_block(params: &Params, raw: Seq<u64>, polys: int, p: int, n: int)
    requires
        params.wf(),
        raw.len() == polys * params.poly_len,
        0 <= p < polys,
        0 <= n < params.crt_count,
    ensures
        p * params.num_words() + n * params.poly_len + params.poly_len <= to_ntt_data(
            params,
            raw,
        ).len(),
        forall|z: int|
            0 <= z < params.poly_len ==> (#[trigger] to_ntt_data(params, raw)[p * params.num_words()
                + n * params.poly_len + z]) as int == forward_coeff(
                raw,
                p * params.poly_len,
                params.poly_len as int,
                params.roots@[n] as int,
                params.q(n),
                z,
            ),
{
    let len: int = params.poly_len as int;
    let w: int = params.num_words();
    let ntt: Seq<u64> = to_ntt_data(params, raw);
    assert(ntt.len() == polys * 1 * w) by (nonlinear_arith)
        requires
            ntt.len() == raw.len() * params.crt_count,
            raw.len() == polys * len,
            w == params.crt_count * len,
    ;
    lemma_ntt_index(params, polys, 1, p, 0, n, len - 1);
    assert(ntt_index(params, 1, p, 0, n, len - 1) == p * w + n * len + len - 1) by (nonlinear_arith)
        requires
            ntt_index(params, 1, p, 0, n, len - 1) == (p * 1 + 0) * w + n * len + (len - 1),
    ;
    assert forall|z: int| 0 <= z < len implies (#[trigger] ntt[p * w + n * len + z]) as int
        == forward_coeff(raw, p * len, len, params.roots@[n] as int, params.q(n), z) by {
        lemma_ntt_index(params, polys, 1, p, 0, n, z);
        let idx: int = p * w + n * len + z;
        assert(ntt_index(params, 1, p, 0, n, z) == idx) by (nonlinear_arith)
            requires
                ntt_index(params, 1, p, 0, n, z) == (p * 1 + 0) * w + n * len + z,
                idx == p * w + n * len + z,
        ;
        assert(p * 1 + 0 == p);
        assert(ntt[idx] == to_ntt_word(params, raw, idx));
        lemma_mod_bound(
            power_sum(raw, p * len, params.roots@[n] as int, 0, 2 * z + 1, len),
            params.q(n),
        );
    }
}

/// The inverse transform undoes the transform: bringing the transform of
/// coefficient-form data back gives the data, provided every coefficient
/// lies below the ciphertext modulus.
pub proof fn lemma_from_ntt_of_to_ntt(params: &Params, raw: Seq<u64>, polys: int)
    requires
        params.wf(),
        0 <= polys,
        raw.len() == polys * params.poly_len,
        forall|i: int| 0 <= i < raw.len() ==> #[trigger] raw[i] < params.modulus,
    ensures
        from_ntt_data(params, to_ntt_data(params, raw)) == raw,
{
    let len: int = params.poly_len as int;
    let w: int = params.num_words();
    let crt: int = params.crt_count as int;
    let ntt: Seq<u64> = to_ntt_data(params, raw);
    let back: Seq<u64> = from_ntt_data(params, ntt);
    lemma_split(raw.len() as int, 0, crt);
    assert(back.len() == raw.len());
    assert forall|i: int| 0 <= i < raw.len() implies back[i] == raw[i] by {
        lemma_div_lt(i, polys, len);
        lemma_fundamental_div_mod(i, len);
        let p: int = i / len;
        let z: int = i % len;
        let base: int = p * w;
        assert(p * len + z == i) by (nonlinear_arith)
            requires
                i == len * p + z,
        ;
        let x: int = raw[i] as int;
        assert(raw[i] < params.modulus);
        assert(back[i] == from_ntt_word(params, ntt, i));
        lemma_transformed_block(params, raw, polys, p, 0);
        assert(forall|k: int|
            0 <= k < len ==> (#[trigger] ntt[base + k]) == ntt[p * w + 0 * len + k]);
        lemma_inverse_of_forward(params, 0, raw, p * len, ntt, base, z);
        assert(params.residue_wf(0));
        lemma_mod_bound(x, params.q(0));
        if crt == 1 {
            lemma_small_mod(x as nat, params.q(0) as nat);
        } else {
            lemma_transformed_block(params, raw, polys, p, 1);
            assert(forall|k: int|
                0 <= k < len ==> (#[trigger] ntt[base + len + k]) == ntt[p * w + 1 * len + k]);
            lemma_inverse_of_forward(params, 1, raw, p * len, ntt, base + len, z);
            assert(params.residue_wf(1));
            lemma_mod_bound(x, params.q(1));
            lemma_crt_compose(x, params.q(0), params.q(1), params.crt_inv as int);
            assert(crt_compose(params, x % params.q(0), x % params.q(1)) == x);
        }
    }
    assert(back =~= raw);
}

/// What the word `c` at position `y` of a transform contributes, through
/// coefficient `j` of the inverse transform, to position `z` of the
/// transform of that: `c` times `psi^((2z+1) j)` times `phi^((2y+1) j)`.
pub open spec fn back_cross(c: int, psi: int, phi: int, z: int, y: int, j: int) -> int {
    c * (pow(psi, ((2 * z + 1) * j) as nat) * pow(phi, ((2 * y + 1) * j) as nat))
}

/// The contributions through coefficient `j` of the first `m` words.
pub open spec fn back_row(x: Seq<u64>, off: int, psi: int, phi: int, z: int, j: int, m: int) -> int
    decreases m,
{
    if m <= 0 {
        0
    } else {
        back_row(x, off, psi, phi, z, j, m - 1) + back_cross(
            x[off + m - 1] as int,
            psi,
            phi,
            z,
            m - 1,
            j,
        )
    }
}

/// The contributions of the word `c` at position `y` through the first `k`
/// coefficients.
pub open spec fn back_col(c: int, psi: int, phi: int, z: int, y: int, k: int) -> int
    decreases k,
{
    if k <= 0 {
        0
    } else {
        back_col(c, psi, phi, z, y, k - 1) + back_cross(c, psi, phi, z, y, k - 1)
    }
}

/// All contributions of the first `m` words through the first `k`
/// coefficients, summed coefficient by coefficient.
pub open spec fn back_rows(x: Seq<u64>, off: int, psi: int, phi: int, z: int, k: int, m: int) -> int
    decreases k,
{
    if k <= 0 {
        0
    } else {
        back_rows(x, off, psi, phi, z, k - 1, m) + back_row(x, off, psi, phi, z, k - 1, m)
    }
}

/// The same contributions, summed word by word.
pub open spec fn back_cols(x: Seq<u64>, off: int, psi: int, phi: int, z: int, k: int, m: int) -> int
    decreases m,
{
    if m <= 0 {
        0
    } else {
        back_cols(x, off, psi, phi, z, k, m - 1) + back_col(
            x[off + m - 1] as int,
            psi,
            phi,
            z,
            m - 1,
            k,
        )
    }
}

/// One more coefficient adds one more row to the sum by words.
proof fn lemma_back_cols_step(x: Seq<u64>, off: int, psi: int, phi: int, z: int, k: int, m: int)
    requires
        k >= 1,
        m >= 0,
    ensures
        back_cols(x, off, psi, phi, z, k, m) == back_cols(x, off, psi, phi, z, k - 1, m) + back_row(
            x,
            off,
            psi,
            phi,
            z,
            k - 1,
            m,
        ),
    decreases m,
{
    if m > 0 {
        lemma_back_cols_step(x, off, psi, phi, z, k, m - 1);
    }
}

/// Without coefficients there are no contributions.
proof fn lemma_back_cols_empty(x: Seq<u64>, off: int, psi: int, phi: int, z: int, m: int)
    requires
        m >= 0,
    ensures
        back_cols(x, off, psi, phi, z, 0, m) == 0,
    decreases m,
{
    if m > 0 {
        lemma_back_cols_empty(x, off, psi, phi, z, m - 1);
    }
}

/// Both orders of summation give the same sum.
proof fn lemma_back_exchange(x: Seq<u64>, off: int, psi: int, phi: int, z: int, k: int, m: int)
    requires
        k >= 0,
        m >= 0,
    ensures
        back_rows(x, off, psi, phi, z, k, m) == back_cols(x, off, psi, phi, z, k, m),
    decreases k,
{
    if k > 0 {
        lemma_back_exchange(x, off, psi, phi, z, k - 1, m);
        lemma_back_cols_step(x, off, psi, phi, z, k, m);
    } else {
        lemma_back_cols_empty(x, off, psi, phi, z, m);
    }
}

/// A row is the weighted sum of the inverse transform at its coefficient
/// times a power of `psi`.
proof fn lemma_back_row(x: Seq<u64>, off: int, psi: int, phi: int, z: int, j: int, m: int)
    requires
        j >= 0,
        z >= 0,
        m >= 0,
    ensures
        back_row(x, off, psi, phi, z, j, m) == power_sum(x, off, phi, j, 2 * j, m) * pow(
            psi,
            ((2 * z + 1) * j) as nat,
        ),
    decreases m,
{
    let pf: int = pow(psi, ((2 * z + 1) * j) as nat);
    if m > 0 {
        lemma_back_row(x, off, psi, phi, z, j, m - 1);
        let y: int = m - 1;
        let c: int = x[off + m - 1] as int;
        let s: int = power_sum(x, off, phi, j, 2 * j, m - 1);
        lemma_mul_nonnegative(2 * y + 1, j);
        assert((j + 2 * j * (m - 1)) as nat == ((2 * y + 1) * j) as nat) by (nonlinear_arith)
            requires
                y == m - 1,
                j >= 0,
                y >= 0,
        ;
        let py: int = pow(phi, ((2 * y + 1) * j) as nat);
        assert((s + c * py) * pf == s * pf + c * (pf * py)) by (nonlinear_arith);
    } else {
        assert(0 * pf == 0);
    }
}

/// The weighted sum of the transform over coefficients that are inverse
/// transform values is `len_inv` times the sum of all contributions, modulo
/// `q`.
proof fn lemma_forward_sum_is_grid(
    a: Seq<u64>,
    off: int,
    x: Seq<u64>,
    off2: int,
    psi: int,
    phi: int,
    len_inv: int,
    q: int,
    len: int,
    z: int,
    k: int,
)
    requires
        q > 0,
        z >= 0,
        0 <= k <= len,
        forall|j: int|
            0 <= j < len ==> (#[trigger] a[off + j] as int) % q == (len_inv * power_sum(
                x,
                off2,
                phi,
                j,
                2 * j,
                len,
            )) % q,
    ensures
        power_sum(a, off, psi, 0, 2 * z + 1, k) % q == (len_inv * back_rows(
            x,
            off2,
            psi,
            phi,
            z,
            k,
            len,
        )) % q,
    decreases k,
{
    if k > 0 {
        lemma_forward_sum_is_grid(a, off, x, off2, psi, phi, len_inv, q, len, z, k - 1);
        let j: int = k - 1;
        lemma_mul_nonnegative(2 * z + 1, j);
        let e: nat = ((2 * z + 1) * j) as nat;
        assert((0 + (2 * z + 1) * (k - 1)) as nat == e);
        let pf: int = pow(psi, e);
        let inner: int = power_sum(x, off2, phi, j, 2 * j, len);
        lemma_back_row(x, off2, psi, phi, z, j, len);
        assert((a[off + j] as int) % q == (len_inv * inner) % q);
        assert(a[off + k - 1] == a[off + j]);
        lemma_mul_congruent(a[off + j] as int, len_inv * inner, pf, pf, q);
        let before: int = back_rows(x, off2, psi, phi, z, k - 1, len);
        lemma_add_congruent(
            power_sum(a, off, psi, 0, 2 * z + 1, k - 1),
            len_inv * before,
            (a[off + j] as int) * pf,
            (len_inv * inner) * pf,
            q,
        );
        assert(len_inv * before + (len_inv * inner) * pf == len_inv * (before + inner * pf))
            by (nonlinear_arith);
    } else {
        assert(len_inv * 0 == 0);
    }
}

/// The contributions of one word are a geometric sum.
proof fn lemma_back_col(c: int, psi: int, phi: int, z: int, y: int, k: int)
    requires
        z >= 0,
        y >= 0,
        k >= 0,
    ensures
        back_col(c, psi, phi, z, y, k) == c * geo(
            pow(psi, (2 * z + 1) as nat) * pow(phi, (2 * y + 1) as nat),
            k,
        ),
    decreases k,
{
    let u: int = pow(psi, (2 * z + 1) as nat) * pow(phi, (2 * y + 1) as nat);
    if k > 0 {
        lemma_back_col(c, psi, phi, z, y, k - 1);
        let j: int = k - 1;
        lemma_mul_nonnegative(2 * z + 1, j);
        lemma_mul_nonnegative(2 * y + 1, j);
        lemma_pow_multiplies(psi, (2 * z + 1) as nat, j as nat);
        lemma_pow_multiplies(phi, (2 * y + 1) as nat, j as nat);
        lemma_pow_distributes(
            pow(psi, (2 * z + 1) as nat),
            pow(phi, (2 * y + 1) as nat),
            j as nat,
        );
        assert(((2 * z + 1) * j) as nat == ((2 * z + 1) as nat) * (j as nat));
        assert(((2 * y + 1) * j) as nat == ((2 * y + 1) as nat) * (j as nat));
        assert(back_cross(c, psi, phi, z, y, j) == c * pow(u, j as nat));
        let g: int = geo(u, k - 1);
        assert(c * g + c * pow(u, j as nat) == c * (g + pow(u, j as nat))) by (nonlinear_arith);
    } else {
        assert(c * 0 == 0);
    }
}

/// The contributions of the word at `z` itself add up to `len` times the
/// word; those of every other word cancel.
proof fn lemma_back_col_value(c: int, psi: int, phi: int, q: int, len: int, z: int, y: int)
    requires
        q >= 2,
        is_two_power(len),
        is_root(psi, len, q),
        (psi * phi) % q == 1,
        0 <= z < len,
        0 <= y < len,
    ensures
        back_col(c, psi, phi, z, y, len) % q == (if z == y {
            c * len
        } else {
            0
        }) % q,
{
    let pz: int = pow(psi, (2 * z + 1) as nat);
    let py: int = pow(phi, (2 * y + 1) as nat);
    let u: int = pz * py;
    lemma_back_col(c, psi, phi, z, y, len);
    lemma_small_mod(1, q as nat);
    lemma_small_mod(0, q as nat);
    let g: int = geo(u, len);
    if z == y {
        lemma_paired_powers(psi, phi, q, 2 * z + 1);
        lemma_geo_of_one(u, q, len);
        lemma_mul_congruent(c, c, g, len, q);
    } else {
        if z > y {
            let d: int = z - y;
            lemma_pow_adds(psi, (2 * d) as nat, (2 * y + 1) as nat);
            assert((2 * d) as nat + (2 * y + 1) as nat == (2 * z + 1) as nat);
            lemma_paired_powers(psi, phi, q, 2 * y + 1);
            let pd: int = pow(psi, (2 * d) as nat);
            let one: int = pow(psi, (2 * y + 1) as nat) * py;
            assert(u == pd * one) by (nonlinear_arith)
                requires
                    u == pz * py,
                    pz == pd * pow(psi, (2 * y + 1) as nat),
                    one == pow(psi, (2 * y + 1) as nat) * py,
            ;
            lemma_mul_congruent(pd, pd, one, 1, q);
            assert(pd * 1 == pd);
            lemma_geo_congruent(u, pd, q, len);
            lemma_geo_vanishes(psi, q, len, d);
        } else {
            let d: int = y - z;
            lemma_inverse_is_root(psi, phi, len, q);
            lemma_pow_adds(phi, (2 * d) as nat, (2 * z + 1) as nat);
            assert((2 * d) as nat + (2 * z + 1) as nat == (2 * y + 1) as nat);
            lemma_paired_powers(psi, phi, q, 2 * z + 1);
            let pd: int = pow(phi, (2 * d) as nat);
            let one: int = pz * pow(phi, (2 * z + 1) as nat);
            assert(u == pd * one) by (nonlinear_arith)
                requires
                    u == pz * py,
                    py == pd * pow(phi, (2 * z + 1) as nat),
                    one == pz * pow(phi, (2 * z + 1) as nat),
            ;
            lemma_mul_congruent(pd, pd, one, 1, q);
            assert(pd * 1 == pd);
            lemma_geo_congruent(u, pd, q, len);
            lemma_geo_vanishes(phi, q, len, d);
        }
        assert(g % q == 0);
        lemma_mul_congruent(c, c, g, 0, q);
        assert(c * 0 == 0);
    }
}

/// Of all contributions only those of the word at `z` remain.
proof fn lemma_back_cols_value(
    x: Seq<u64>,
    off: int,
    psi: int,
    phi: int,
    q: int,
    len: int,
    z: int,
    m: int,
)
    requires
        q >= 2,
        is_two_power(len),
        is_root(psi, len, q),
        (psi * phi) % q == 1,
        0 <= z < len,
        0 <= m <= len,
    ensures
        back_cols(x, off, psi, phi, z, len, m) % q == (if z < m {
            (x[off + z] as int) * len
        } else {
            0
        }) % q,
    decreases m,
{
    if m > 0 {
        lemma_back_cols_value(x, off, psi, phi, q, len, z, m - 1);
        let c: int = x[off + m - 1] as int;
        lemma_back_col_value(c, psi, phi, q, len, z, m - 1);
        let before: int = if z < m - 1 {
            (x[off + z] as int) * len
        } else {
            0
        };
        let here: int = if m - 1 == z {
            c * len
        } else {
            0
        };
        lemma_add_congruent(
            back_cols(x, off, psi, phi, z, len, m - 1),
            before,
            back_col(c, psi, phi, z, m - 1, len),
            here,
            q,
        );
    }
}

/// The transform of the inverse transform of a block of words is the block,
/// modulo the modulus: where the coefficients of `a` from `off` on are,
/// modulo `q`, the inverse transform of the words of `x` from `off2` on,
/// position `z` of the transform of `a` is the residue of word `z` of `x`.
pub proof fn lemma_forward_of_inverse(
    params: &Params,
    n: int,
    a: Seq<u64>,
    off: int,
    x: Seq<u64>,
    off2: int,
    z: int,
)
    requires
        params.wf(),
        0 <= n < params.crt_count,
        0 <= z < params.poly_len,
        forall|j: int|
            0 <= j < params.poly_len ==> (#[trigger] a[off + j] as int) % params.q(n)
                == inverse_coeff(
                x,
                off2,
                params.poly_len as int,
                params.inv_roots@[n] as int,
                params.inv_poly_len@[n] as int,
                params.q(n),
                j,
            ),
    ensures
        forward_coeff(a, off, params.poly_len as int, params.roots@[n] as int, params.q(n), z) == (
        x[off2 + z] as int) % params.q(n),
{
    let q: int = params.q(n);
    let len: int = params.poly_len as int;
    let psi: int = params.roots@[n] as int;
    let phi: int = params.inv_roots@[n] as int;
    let li: int = params.inv_poly_len@[n] as int;
    assert(params.residue_wf(n));
    lemma_forward_sum_is_grid(a, off, x, off2, psi, phi, li, q, len, z, len);
    lemma_back_exchange(x, off2, psi, phi, z, len, len);
    lemma_back_cols_value(x, off2, psi, phi, q, len, z, len);
    let c: int = x[off2 + z] as int;
    let grid: int = back_cols(x, off2, psi, phi, z, len, len);
    lemma_mul_congruent(li, li, grid, c * len, q);
    assert(li * (c * len) == c * (len * li)) by (nonlinear_arith);
    lemma_small_mod(1, q as nat);
    lemma_mul_congruent(c, c, len * li, 1, q);
    assert(c * 1 == c);
}

/// The number that `crt_compose` makes of two residues has these residues.
pub proof fn lemma_crt_residues(x0: int, x1: int, q0: int, q1: int, inv: int)
    requires
        q0 >= 1,
        q1 >= 1,
        (q0 * inv) % q1 == 1,
    ensures
        (x0 + q0 * (((x1 + q1 - x0 % q1) * inv) % q1)) % q0 == x0 % q0,
        (x0 + q0 * (((x1 + q1 - x0 % q1) * inv) % q1)) % q1 == x1 % q1,
{
    let diff: int = x1 + q1 - x0 % q1;
    let h: int = (diff * inv) % q1;
    lemma_mul_is_commutative(q0, h);
    lemma_mod_multiples_vanish(h, x0, q0);
    if q1 == 1 {
        assert((q0 * inv) % 1 == 0);
    }
    lemma_small_mod(1, q1 as nat);
    // q0 * h is diff modulo q1
    lemma_mod_twice(diff * inv, q1);
    lemma_mul_congruent(q0, q0, h, diff * inv, q1);
    assert(q0 * (diff * inv) == diff * (q0 * inv)) by (nonlinear_arith);
    lemma_mul_congruent(diff, diff, q0 * inv, 1, q1);
    assert(diff * 1 == diff);
    assert((q0 * h) % q1 == diff % q1);
    // diff is x1 - x0 modulo q1
    lemma_mod_add_multiples_vanish(x1 - x0 % q1, q1);
    lemma_sub_mod_noop_right(x1, x0, q1);
    assert(diff % q1 == (x1 - x0) % q1);
    lemma_add_congruent(x0, x0, q0 * h, x1 - x0, q1);
}

/// The transform undoes the inverse transform: the transform of the
/// coefficient form of transformed data is the data, every word reduced
/// modulo the modulus of its residue.
pub proof fn lemma_to_ntt_of_from_ntt(params: &Params, x: Seq<u64>, polys: int)
    requires
        params.wf(),
        0 <= polys,
        x.len() == polys * params.num_words(),
    ensures
        to_ntt_data(params, from_ntt_data(params, x)).len() == x.len(),
        forall|idx: int|
            0 <= idx < x.len() ==> (#[trigger] to_ntt_data(params, from_ntt_data(params, x))[idx])
                as int == (x[idx] as int) % params.q(residue_of(params, idx)),
{
    let len: int = params.poly_len as int;
    let w: int = params.num_words();
    let crt: int = params.crt_count as int;
    let raw: Seq<u64> = from_ntt_data(params, x);
    let back: Seq<u64> = to_ntt_data(params, raw);
    assert(polys * w == (polys * len) * crt) by (nonlinear_arith)
        requires
            w == crt * len,
    ;
    lemma_split(polys * len, 0, crt);
    assert(raw.len() == polys * len);
    assert(back.len() == x.len());
    assert(params.residue_wf(0));
    assert forall|idx: int| 0 <= idx < x.len() implies (#[trigger] back[idx]) as int == (
    x[idx] as int) % params.q(residue_of(params, idx)) by {
        assert(polys * 1 * w == polys * w) by (nonlinear_arith);
        lemma_ntt_coords(params, polys, 1, idx);
        let p: int = idx / w;
        let n: int = residue_of(params, idx);
        let z: int = position_of(params, idx);
        let q: int = params.q(n);
        assert(p / 1 == p && p % 1 == 0);
        assert(ntt_index(params, 1, p, 0, n, z) == idx);
        assert(idx == p * w + n * len + z) by (nonlinear_arith)
            requires
                ntt_index(params, 1, p, 0, n, z) == (p * 1 + 0) * w + n * len + z,
                ntt_index(params, 1, p, 0, n, z) == idx,
        ;
        lemma_block_bound(p, polys, len);
        lemma_block_bound(p, polys, w);
        if crt == 2 {
            assert(params.residue_wf(1));
            assert(w == len + len) by (nonlinear_arith)
                requires
                    w == crt * len,
                    crt == 2,
            ;
        }
        // every coefficient of the polynomial has the inverse transform as
        // its residue
        assert forall|j: int| 0 <= j < len implies (#[trigger] raw[p * len + j] as int) % q
            == inverse_coeff(
            x,
            p * w + n * len,
            len,
            params.inv_roots@[n] as int,
            params.inv_poly_len@[n] as int,
            q,
            j,
        ) by {
            let i: int = p * len + j;
            lemma_split(p, j, len);
            assert(raw[i] == from_ntt_word(params, x, i));
            let x0: int = inverse_coeff(
                x,
                p * w,
                len,
                params.inv_roots@[0] as int,
                params.inv_poly_len@[0] as int,
                params.q(0),
                j,
            );
            lemma_mod_bound(
                (params.inv_poly_len@[0] as int) * power_sum(
                    x,
                    p * w,
                    params.inv_roots@[0] as int,
                    j,
                    2 * j,
                    len,
                ),
                params.q(0),
            );
            if crt == 1 {
                assert(n == 0);
                assert(n * len == 0) by (nonlinear_arith)
                    requires
                        n == 0,
                ;
                lemma_small_mod(x0 as nat, q as nat);
            } else {
                let x1: int = inverse_coeff(
                    x,
                    p * w + len,
                    len,
                    params.inv_roots@[1] as int,
                    params.inv_poly_len@[1] as int,
                    params.q(1),
                    j,
                );
                lemma_mod_bound(
                    (params.inv_poly_len@[1] as int) * power_sum(
                        x,
                        p * w + len,
                        params.inv_roots@[1] as int,
                        j,
                        2 * j,
                        len,
                    ),
                    params.q(1),
                );
                let c: int = crt_compose(params, x0, x1);
                lemma_crt_residues(x0, x1, params.q(0), params.q(1), params.crt_inv as int);
                lemma_mod_bound(
                    (x1 + params.q(1) - x0 % params.q(1)) * (params.crt_inv as int),
                    params.q(1),
                );
                assert(0 <= c < params.q(0) * params.q(1)) by (nonlinear_arith)
                    requires
                        c == x0 + params.q(0) * (((x1 + params.q(1) - x0 % params.q(1)) * (
                        params.crt_inv as int)) % params.q(1)),
                        0 <= x0 < params.q(0),
                        0 <= ((x1 + params.q(1) - x0 % params.q(1)) * (params.crt_inv as int))
                            % params.q(1) < params.q(1),
                ;
                lemma_small_mod(x0 as nat, params.q(0) as nat);
                lemma_small_mod(x1 as nat, params.q(1) as nat);
                if n == 0 {
                    assert(n * len == 0) by (nonlinear_arith)
                        requires
                            n == 0,
                    ;
                } else {
                    assert(n * len == len) by (nonlinear_arith)
                        requires
                            n == 1,
                    ;
                }
            }
        }
        lemma_forward_of_inverse(params, n, raw, p * len, x, p * w + n * len, z);
        assert(back[idx] == to_ntt_word(params, raw, idx));
        lemma_mod_bound(x[idx] as int, q);
    }
}

} // verus!
