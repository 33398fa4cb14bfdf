//! The negacyclic number-theoretic transform of one polynomial modulo one
//! word-sized modulus, and its inverse.
//!
//! The transform of `a` at position `z` is the value of the polynomial `a`
//! at the odd power `w^(2z+1)` of the root `w`; both directions are sums of
//! coefficients weighted by powers of a root. They are computed by halving:
//! a sum over all coefficients is the sum over the even ones plus a power
//! of the root times the sum over the odd ones.

use vstd::prelude::*;
use vstd::arithmetic::div_mod::*;
use vstd::arithmetic::mul::*;
use vstd::arithmetic::power::*;
use crate::arith::{
    barrett_coeff_u64, lemma_add_congruent, lemma_mul_congruent, lemma_pow_square, mul_add_mod,
    mul_mod,
};
use crate::params::{is_root, is_two_power, Params};

verus! {

/// Sum over `j < k` of `a[off + j] * w^(e0 + de * j)`.
pub open spec fn power_sum(a: Seq<u64>, off: int, w: int, e0: int, de: int, k: int) -> int
    decreases k,
{
    if k <= 0 {
        0
    } else {
        power_sum(a, off, w, e0, de, k - 1) + (a[off + k - 1] as int) * pow(
            w,
            (e0 + de * (k - 1)) as nat,
        )
    }
}

/// Position `z` of the transform, modulo `q` and with root `w`, of the
/// polynomial whose `len` coefficients start at `off`: its value at
/// `w^(2z+1)`.
pub open spec fn forward_coeff(a: Seq<u64>, off: int, len: int, w: int, q: int, z: int) -> int {
    power_sum(a, off, w, 0, 2 * z + 1, len) % q
}

/// Coefficient `j` of the inverse transform, modulo `q`, of the block of
/// `len` words that starts at `off`, where `w_inv` is the inverse of the root
/// and `len_inv` the inverse of `len`.
pub open spec fn inverse_coeff(
    b: Seq<u64>,
    off: int,
    len: int,
    w_inv: int,
    len_inv: int,
    q: int,
    j: int,
) -> int {
    (len_inv * power_sum(b, off, w_inv, j, 2 * j, len)) % q
}

/// Reducing the root modulo `q` does not change a sum modulo `q`.
proof fn lemma_sum_root_mod(x: Seq<u64>, w: int, q: int, z: int, k: int)
    requires
        q > 0,
        z >= 0,
        k >= 0,
    ensures
        power_sum(x, 0, w % q, 0, z, k) % q == power_sum(x, 0, w, 0, z, k) % q,
    decreases k,
{
    if k > 0 {
        lemma_sum_root_mod(x, w, q, z, k - 1);
        lemma_mul_nonnegative(z, k - 1);
        let e: nat = (0 + z * (k - 1)) as nat;
        let c: int = x[0 + k - 1] as int;
        lemma_pow_mod_noop(w, e, q);
        lemma_mul_congruent(c, c, pow(w % q, e), pow(w, e), q);
        lemma_add_congruent(
            power_sum(x, 0, w % q, 0, z, k - 1),
            power_sum(x, 0, w, 0, z, k - 1),
            c * pow(w % q, e),
            c * pow(w, e),
            q,
        );
    }
}

/// Where `w^h` is one modulo `q`, the sums at `z` and at `z + h` agree
/// modulo `q`.
proof fn lemma_sum_period(x: Seq<u64>, w: int, q: int, h: int, z: int, k: int)
    requires
        q > 1,
        h >= 0,
        z >= 0,
        k >= 0,
        pow(w, h as nat) % q == 1,
    ensures
        power_sum(x, 0, w, 0, z + h, k) % q == power_sum(x, 0, w, 0, z, k) % q,
    decreases k,
{
    if k > 0 {
        lemma_sum_period(x, w, q, h, z, k - 1);
        let j: int = k - 1;
        let c: int = x[0 + k - 1] as int;
        lemma_mul_nonnegative(z, j);
        lemma_mul_nonnegative(h, j);
        lemma_mul_nonnegative(z + h, j);
        let ez: nat = (z * j) as nat;
        let eh: nat = (h * j) as nat;
        assert((0 + (z + h) * j) as nat == ez + eh) by (nonlinear_arith)
            requires
                ez == z * j,
                eh == h * j,
        ;
        lemma_pow_adds(w, ez, eh);
        lemma_pow_multiplies(w, h as nat, j as nat);
        lemma_pow_mod_noop(pow(w, h as nat), j as nat, q);
        lemma1_pow(j as nat);
        lemma_small_mod(1, q as nat);
        assert(pow(w, eh) % q == 1);
        let a: int = c * pow(w, ez);
        lemma_mul_congruent(a, a, pow(w, eh), 1, q);
        assert(c * pow(w, ez + eh) == a * pow(w, eh)) by (nonlinear_arith)
            requires
                pow(w, ez + eh) == pow(w, ez) * pow(w, eh),
                a == c * pow(w, ez),
        ;
        assert(a * 1 == a);
        lemma_add_congruent(
            power_sum(x, 0, w, 0, z + h, k - 1),
            power_sum(x, 0, w, 0, z, k - 1),
            c * pow(w, ez + eh),
            a,
            q,
        );
    }
}

/// A sum over `2h` coefficients is the sum over the even ones plus `w^z`
/// times the sum over the odd ones, both with the root squared.
proof fn lemma_sum_split(x: Seq<u64>, even: Seq<u64>, odd: Seq<u64>, w: int, z: int, h: int)
    requires
        z >= 0,
        h >= 0,
        forall|i: int| 0 <= i < h ==> #[trigger] even[i] == x[2 * i],
        forall|i: int| 0 <= i < h ==> #[trigger] odd[i] == x[2 * i + 1],
    ensures
        power_sum(x, 0, w, 0, z, 2 * h) == power_sum(even, 0, w * w, 0, z, h) + pow(w, z as nat)
            * power_sum(odd, 0, w * w, 0, z, h),
    decreases h,
{
    if h > 0 {
        lemma_sum_split(x, even, odd, w, z, h - 1);
        let i: int = h - 1;
        lemma_mul_nonnegative(z, i);
        let e: nat = (z * i) as nat;
        let s0: int = power_sum(x, 0, w, 0, z, 2 * h - 2);
        let s1: int = power_sum(x, 0, w, 0, z, 2 * h - 1);
        let s2: int = power_sum(x, 0, w, 0, z, 2 * h);
        let ce: int = x[2 * i] as int;
        let co: int = x[2 * i + 1] as int;
        assert(even[i] == x[2 * i]);
        assert(odd[i] == x[2 * i + 1]);
        assert((0 + z * (2 * h - 1 - 1)) as nat == 2 * e) by (nonlinear_arith)
            requires
                e == z * i,
                i == h - 1,
        ;
        assert((0 + z * (2 * h - 1)) as nat == z as nat + 2 * e) by (nonlinear_arith)
            requires
                e == z * i,
                i == h - 1,
                z >= 0,
        ;
        assert(s1 == s0 + ce * pow(w, 2 * e));
        assert(s2 == s1 + co * pow(w, z as nat + 2 * e));
        lemma_pow_square(w, e);
        lemma_pow_adds(w, z as nat, 2 * e);
        let sq: int = pow(w * w, e);
        let pz: int = pow(w, z as nat);
        let se: int = power_sum(even, 0, w * w, 0, z, h - 1);
        let so: int = power_sum(odd, 0, w * w, 0, z, h - 1);
        assert(power_sum(even, 0, w * w, 0, z, h) == se + ce * sq);
        assert(power_sum(odd, 0, w * w, 0, z, h) == so + co * sq);
        assert(s0 + ce * sq + co * (pz * sq) == (se + ce * sq) + pz * (so + co * sq))
            by (nonlinear_arith)
            requires
                s0 == se + pz * so,
        ;
    }
}

/// The weighted sum of the transform is the plain sum, with the root
/// squared, over the coefficients twisted by the powers of the root.
proof fn lemma_sum_twist(a: Seq<u64>, off: int, x: Seq<u64>, psi: int, q: int, z: int, k: int)
    requires
        q > 0,
        z >= 0,
        k >= 0,
        forall|j: int|
            0 <= j < k ==> (#[trigger] x[j] as int) % q == ((a[off + j] as int) * pow(
                psi,
                j as nat,
            )) % q,
    ensures
        power_sum(a, off, psi, 0, 2 * z + 1, k) % q == power_sum(x, 0, psi * psi, 0, z, k) % q,
    decreases k,
{
    if k > 0 {
        lemma_sum_twist(a, off, x, psi, q, z, k - 1);
        let j: int = k - 1;
        lemma_mul_nonnegative(z, j);
        let e: nat = (z * j) as nat;
        let c: int = a[off + k - 1] as int;
        assert((0 + (2 * z + 1) * (k - 1)) as nat == j as nat + 2 * e) by (nonlinear_arith)
            requires
                e == z * j,
                j == k - 1,
                j >= 0,
        ;
        lemma_pow_adds(psi, j as nat, 2 * e);
        lemma_pow_square(psi, e);
        let sq: int = pow(psi * psi, e);
        let tw: int = c * pow(psi, j as nat);
        assert(c * pow(psi, j as nat + 2 * e) == tw * sq) by (nonlinear_arith)
            requires
                pow(psi, j as nat + 2 * e) == pow(psi, j as nat) * sq,
                tw == c * pow(psi, j as nat),
        ;
        assert((x[j] as int) % q == tw % q);
        lemma_mul_congruent(tw, x[j] as int, sq, sq, q);
        assert((0 + z * (k - 1)) as nat == e);
        lemma_add_congruent(
            power_sum(a, off, psi, 0, 2 * z + 1, k - 1),
            power_sum(x, 0, psi * psi, 0, z, k - 1),
            tw * sq,
            (x[j] as int) * sq,
            q,
        );
    }
}

/// The weighted sum of the inverse transform is `w^j` times the plain sum
/// with the root squared.
proof fn lemma_sum_untwist(b: Seq<u64>, off: int, x: Seq<u64>, w: int, j: int, k: int)
    requires
        j >= 0,
        k >= 0,
        forall|z: int| 0 <= z < k ==> #[trigger] x[z] == b[off + z],
    ensures
        power_sum(b, off, w, j, 2 * j, k) == pow(w, j as nat) * power_sum(x, 0, w * w, 0, j, k),
    decreases k,
{
    if k > 0 {
        lemma_sum_untwist(b, off, x, w, j, k - 1);
        let z: int = k - 1;
        lemma_mul_nonnegative(j, z);
        let e: nat = (j * z) as nat;
        let c: int = b[off + k - 1] as int;
        assert(x[z] == b[off + z]);
        assert((j + 2 * j * (k - 1)) as nat == j as nat + 2 * e) by (nonlinear_arith)
            requires
                e == j * z,
                z == k - 1,
                j >= 0,
        ;
        assert((0 + j * (k - 1)) as nat == e);
        lemma_pow_adds(w, j as nat, 2 * e);
        lemma_pow_square(w, e);
        let sq: int = pow(w * w, e);
        let pj: int = pow(w, j as nat);
        let s: int = power_sum(x, 0, w * w, 0, j, k - 1);
        assert(pj * s + c * (pj * sq) == pj * (s + c * sq)) by (nonlinear_arith);
    }
}

/// The square of a root of unity of order `2 * len` has order `len`.
pub proof fn lemma_root_period(r: int, len: int, q: int)
    requires
        q >= 2,
        len >= 1,
        is_root(r, len, q),
    ensures
        pow(r * r, len as nat) % q == 1,
{
    let half: int = pow(r, len as nat);
    lemma_pow_square(r, len as nat);
    lemma_pow_adds(r, len as nat, len as nat);
    lemma_mul_mod_noop(half, half, q);
    assert((q - 1) * (q - 1) == q * (q - 2) + 1) by (nonlinear_arith);
    lemma_fundamental_div_mod_converse((q - 1) * (q - 1), q, q - 2, 1);
}

/// The inverse of a root of unity of order `2 * len` has a square of order
/// `len`.
pub proof fn lemma_inverse_root_period(r: int, r_inv: int, len: int, q: int)
    requires
        q >= 2,
        len >= 1,
        is_root(r, len, q),
        (r * r_inv) % q == 1,
    ensures
        pow(r_inv * r_inv, len as nat) % q == 1,
{
    let e: nat = (2 * len) as nat;
    lemma_root_period(r, len, q);
    lemma_pow_square(r, len as nat);
    lemma_pow_square(r_inv, len as nat);
    lemma_pow_distributes(r, r_inv, e);
    lemma_pow_mod_noop(r * r_inv, e, q);
    lemma1_pow(e);
    lemma_small_mod(1, q as nat);
    // (r * r_inv)^e = r^e * r_inv^e, the left side and r^e are one modulo q
    lemma_mul_congruent(pow(r, e), 1, pow(r_inv, e), pow(r_inv, e), q);
    assert(1 * pow(r_inv, e) == pow(r_inv, e));
}

/// The sums `x[0] + x[1] * w^z + x[2] * w^(2z) + ...` for every `z` below
/// the length of `x`, a power of two, modulo the `n`-th modulus, where
/// `w` to the length of `x` is one.
pub fn power_sums(params: &Params, n: usize, x: &Vec<u64>, w: u64) -> (out: Vec<u64>)
    requires
        params.wf(),
        n < params.crt_count,
        is_two_power(x@.len() as int),
        pow(w as int, x@.len()) % params.q(n as int) == 1,
    ensures
        out@.len() == x@.len(),
        forall|z: int|
            0 <= z < x@.len() ==> (#[trigger] out@[z]) as int == power_sum(
                x@,
                0,
                w as int,
                0,
                z,
                x@.len() as int,
            ) % params.q(n as int),
    decreases x@.len(),
{
    let ghost q: int = params.q(n as int);
    let m: usize = x.len();
    if m == 1 {
        let v: u64 = barrett_coeff_u64(params, x[0], n);
        let mut out: Vec<u64> = Vec::new();
        out.push(v);
        proof {
            lemma_pow0(w as int);
            assert(power_sum(x@, 0, w as int, 0, 0, 1) == power_sum(x@, 0, w as int, 0, 0, 0) + (
            x@[0] as int) * pow(w as int, 0));
        }
        return out;
    }
    let h: usize = m / 2;
    let mut even: Vec<u64> = Vec::new();
    let mut odd: Vec<u64> = Vec::new();
    let mut i: usize = 0;
    while i < h
        invariant
            m == x@.len(),
            m == 2 * h,
            i <= h,
            even@.len() == i,
            odd@.len() == i,
            forall|k: int| 0 <= k < i ==> #[trigger] even@[k] == x@[2 * k],
            forall|k: int| 0 <= k < i ==> #[trigger] odd@[k] == x@[2 * k + 1],
        decreases h - i,
    {
        even.push(x[2 * i]);
        odd.push(x[2 * i + 1]);
        i += 1;
    }
    let w2: u64 = mul_mod(params, w, w, n);
    proof {
        let ww: int = (w as int) * (w as int);
        lemma_pow_square(w as int, h as nat);
        lemma_pow_mod_noop(ww, h as nat, q);
    }
    let e: Vec<u64> = power_sums(params, n, &even, w2);
    let o: Vec<u64> = power_sums(params, n, &odd, w2);
    let mut out: Vec<u64> = Vec::new();
    let mut pw: u64 = 1;
    let mut z: usize = 0;
    proof {
        lemma_pow0(w as int);
        lemma_small_mod(1, q as nat);
    }
    while z < m
        invariant
            params.wf(),
            n < params.crt_count,
            q == params.q(n as int),
            m == x@.len(),
            m == 2 * h,
            h >= 1,
            w2 as int == ((w as int) * (w as int)) % q,
            pow((w as int) * (w as int), h as nat) % q == 1,
            even@.len() == h,
            odd@.len() == h,
            e@.len() == h,
            o@.len() == h,
            forall|k: int| 0 <= k < h ==> #[trigger] even@[k] == x@[2 * k],
            forall|k: int| 0 <= k < h ==> #[trigger] odd@[k] == x@[2 * k + 1],
            forall|k: int|
                0 <= k < h ==> (#[trigger] e@[k]) as int == power_sum(
                    even@,
                    0,
                    w2 as int,
                    0,
                    k,
                    h as int,
                ) % q,
            forall|k: int|
                0 <= k < h ==> (#[trigger] o@[k]) as int == power_sum(
                    odd@,
                    0,
                    w2 as int,
                    0,
                    k,
                    h as int,
                ) % q,
            z <= m,
            out@.len() == z,
            (pw as int) < q,
            pw as int == pow(w as int, z as nat) % q,
            forall|k: int|
                0 <= k < z ==> (#[trigger] out@[k]) as int == power_sum(
                    x@,
                    0,
                    w as int,
                    0,
                    k,
                    m as int,
                ) % q,
        decreases m - z,
    {
        let zz: usize = if z < h {
            z
        } else {
            z - h
        };
        let ev: u64 = e[zz];
        let ov: u64 = o[zz];
        proof {
            let wi: int = w as int;
            let ww: int = wi * wi;
            let se: int = power_sum(even@, 0, ww, 0, z as int, h as int);
            let so: int = power_sum(odd@, 0, ww, 0, z as int, h as int);
            lemma_sum_root_mod(even@, ww, q, zz as int, h as int);
            lemma_sum_root_mod(odd@, ww, q, zz as int, h as int);
            if z >= h {
                lemma_sum_period(even@, ww, q, h as int, zz as int, h as int);
                lemma_sum_period(odd@, ww, q, h as int, zz as int, h as int);
            }
            lemma_mod_bound(power_sum(even@, 0, w2 as int, 0, zz as int, h as int), q);
            lemma_mod_twice(power_sum(even@, 0, w2 as int, 0, zz as int, h as int), q);
            lemma_mod_twice(power_sum(odd@, 0, w2 as int, 0, zz as int, h as int), q);
            lemma_mod_twice(pow(wi, z as nat), q);
            assert((ev as int) % q == se % q);
            assert((ov as int) % q == so % q);
            lemma_mul_congruent(ov as int, so, pw as int, pow(wi, z as nat), q);
            lemma_add_congruent(
                ev as int,
                se,
                (ov as int) * (pw as int),
                so * pow(wi, z as nat),
                q,
            );
            lemma_sum_split(x@, even@, odd@, wi, z as int, h as int);
            lemma_mul_is_commutative(so, pow(wi, z as nat));
            // the next power of the root
            lemma_pow_adds(wi, z as nat, 1);
            lemma_pow1(wi);
            lemma_mul_congruent(pw as int, pow(wi, z as nat), wi, wi, q);
        }
        let val: u64 = mul_add_mod(params, ev, ov, pw, n);
        out.push(val);
        pw = mul_mod(params, pw, w, n);
        z += 1;
    }
    out
}

/// The transform modulo the `n`-th modulus of the polynomial whose
/// coefficients start at `off`.
pub fn forward_block(params: &Params, n: usize, src: &Vec<u64>, off: usize) -> (out: Vec<u64>)
    requires
        params.wf(),
        n < params.crt_count,
        off + params.poly_len <= src@.len(),
    ensures
        out@.len() == params.poly_len,
        forall|z: int|
            0 <= z < params.poly_len ==> (#[trigger] out@[z]) as int == forward_coeff(
                src@,
                off as int,
                params.poly_len as int,
                params.roots@[n as int] as int,
                params.q(n as int),
                z,
            ),
        forall|z: int|
            0 <= z < params.poly_len ==> (#[trigger] out@[z] as int) < params.q(n as int),
{
    let ghost q: int = params.q(n as int);
    let ghost psi: int = params.roots@[n as int] as int;
    let len: usize = params.poly_len;
    let src_len: usize = src.len();
    let root: u64 = params.roots[n];
    let mut x: Vec<u64> = Vec::new();
    let mut pw: u64 = 1;
    let mut j: usize = 0;
    proof {
        lemma_pow0(psi);
        lemma_small_mod(1, q as nat);
    }
    while j < len
        invariant
            params.wf(),
            n < params.crt_count,
            q == params.q(n as int),
            psi == params.roots@[n as int] as int,
            root as int == psi,
            len == params.poly_len,
            src_len == src@.len(),
            off + len <= src_len,
            j <= len,
            x@.len() == j,
            (pw as int) < q,
            pw as int == pow(psi, j as nat) % q,
            forall|k: int|
                0 <= k < j ==> (#[trigger] x@[k] as int) % q == ((src@[off + k] as int) * pow(
                    psi,
                    k as nat,
                )) % q,
        decreases len - j,
    {
        let c: u64 = src[off + j];
        let t: u64 = mul_mod(params, c, pw, n);
        proof {
            lemma_mod_twice(pow(psi, j as nat), q);
            lemma_mul_congruent(c as int, c as int, pw as int, pow(psi, j as nat), q);
            lemma_mod_twice((c as int) * (pw as int), q);
            lemma_pow_adds(psi, j as nat, 1);
            lemma_pow1(psi);
            lemma_mul_congruent(pw as int, pow(psi, j as nat), psi, psi, q);
        }
        x.push(t);
        pw = mul_mod(params, pw, root, n);
        j += 1;
    }
    let w: u64 = mul_mod(params, root, root, n);
    proof {
        lemma_root_period(psi, len as int, q);
        lemma_pow_mod_noop(psi * psi, len as nat, q);
    }
    let out: Vec<u64> = power_sums(params, n, &x, w);
    proof {
        assert forall|z: int| 0 <= z < len implies (#[trigger] out@[z]) as int == forward_coeff(
            src@,
            off as int,
            len as int,
            psi,
            q,
            z,
        ) by {
            lemma_sum_root_mod(x@, psi * psi, q, z, len as int);
            lemma_sum_twist(src@, off as int, x@, psi, q, z, len as int);
        }
        assert forall|z: int| 0 <= z < len implies (#[trigger] out@[z] as int) < q by {
            lemma_mod_bound(power_sum(x@, 0, w as int, 0, z, len as int), q);
        }
    }
    out
}

/// The inverse transform modulo the `n`-th modulus of the block of words
/// that starts at `off`.
pub fn inverse_block(params: &Params, n: usize, src: &Vec<u64>, off: usize) -> (out: Vec<u64>)
    requires
        params.wf(),
        n < params.crt_count,
        off + params.poly_len <= src@.len(),
    ensures
        out@.len() == params.poly_len,
        forall|j: int|
            0 <= j < params.poly_len ==> (#[trigger] out@[j]) as int == inverse_coeff(
                src@,
                off as int,
                params.poly_len as int,
                params.inv_roots@[n as int] as int,
                params.inv_poly_len@[n as int] as int,
                params.q(n as int),
                j,
            ),
        forall|j: int|
            0 <= j < params.poly_len ==> (#[trigger] out@[j] as int) < params.q(n as int),
{
    let ghost q: int = params.q(n as int);
    let ghost wi: int = params.inv_roots@[n as int] as int;
    let ghost li: int = params.inv_poly_len@[n as int] as int;
    let len: usize = params.poly_len;
    let src_len: usize = src.len();
    let inv_root: u64 = params.inv_roots[n];
    let inv_len: u64 = params.inv_poly_len[n];
    let mut x: Vec<u64> = Vec::new();
    let mut z: usize = 0;
    while z < len
        invariant
            len == params.poly_len,
            src_len == src@.len(),
            off + len <= src_len,
            z <= len,
            x@.len() == z,
            forall|k: int| 0 <= k < z ==> #[trigger] x@[k] == src@[off + k],
        decreases len - z,
    {
        x.push(src[off + z]);
        z += 1;
    }
    let w: u64 = mul_mod(params, inv_root, inv_root, n);
    proof {
        lemma_inverse_root_period(params.roots@[n as int] as int, wi, len as int, q);
        lemma_pow_mod_noop(wi * wi, len as nat, q);
    }
    let sums: Vec<u64> = power_sums(params, n, &x, w);
    let mut out: Vec<u64> = Vec::new();
    let mut pw: u64 = 1;
    let mut j: usize = 0;
    proof {
        lemma_pow0(wi);
        lemma_small_mod(1, q as nat);
    }
    while j < len
        invariant
            params.wf(),
            n < params.crt_count,
            q == params.q(n as int),
            wi == params.inv_roots@[n as int] as int,
            li == params.inv_poly_len@[n as int] as int,
            inv_root as int == wi,
            inv_len as int == li,
            len == params.poly_len,
            off + len <= src@.len(),
            w as int == (wi * wi) % q,
            sums@.len() == len,
            x@.len() == len,
            forall|k: int| 0 <= k < len ==> #[trigger] x@[k] == src@[off + k],
            forall|k: int|
                0 <= k < len ==> (#[trigger] sums@[k]) as int == power_sum(
                    x@,
                    0,
                    w as int,
                    0,
                    k,
                    len as int,
                ) % q,
            j <= len,
            out@.len() == j,
            (pw as int) < q,
            pw as int == pow(wi, j as nat) % q,
            forall|k: int|
                0 <= k < j ==> (#[trigger] out@[k]) as int == inverse_coeff(
                    src@,
                    off as int,
                    len as int,
                    wi,
                    li,
                    q,
                    k,
                ),
            forall|k: int| 0 <= k < j ==> (#[trigger] out@[k] as int) < q,
        decreases len - j,
    {
        let s: u64 = sums[j];
        let t: u64 = mul_mod(params, pw, s, n);
        let val: u64 = mul_mod(params, inv_len, t, n);
        proof {
            let plain: int = power_sum(x@, 0, wi * wi, 0, j as int, len as int);
            lemma_sum_root_mod(x@, wi * wi, q, j as int, len as int);
            lemma_sum_untwist(src@, off as int, x@, wi, j as int, len as int);
            lemma_mod_twice(power_sum(x@, 0, w as int, 0, j as int, len as int), q);
            lemma_mod_twice(pow(wi, j as nat), q);
            assert((s as int) % q == plain % q);
            lemma_mul_congruent(pw as int, pow(wi, j as nat), s as int, plain, q);
            lemma_mod_twice((pw as int) * (s as int), q);
            lemma_mul_congruent(li, li, t as int, pow(wi, j as nat) * plain, q);
            lemma_pow_adds(wi, j as nat, 1);
            lemma_pow1(wi);
            lemma_mul_congruent(pw as int, pow(wi, j as nat), wi, wi, q);
        }
        out.push(val);
        pw = mul_mod(params, pw, inv_root, n);
        j += 1;
    }
    out
}

} // verus!
