//! Matrices of ring polynomials in coefficient form and in transformed form,
//! and the ring operations on them.

use vstd::prelude::*;
use vstd::arithmetic::div_mod::*;
use crate::arith::{barrett_coeff_u64, lemma_mod_add_congruent, mul_add_mod, mul_mod};
use crate::ntt::{forward_block, forward_coeff, inverse_block, inverse_coeff};
use crate::params::Params;

verus! {

/// A `rows x cols` matrix of polynomials in coefficient form: the polynomial
/// at `(r, c)` occupies `poly_len` consecutive words, each a coefficient
/// modulo the ciphertext modulus.
#[derive(Clone, Debug)]
pub struct PolyMatrixRaw {
    pub rows: usize,
    pub cols: usize,
    pub data: Vec<u64>,
}

/// A `rows x cols` matrix of polynomials in transformed form: the polynomial
/// at `(r, c)` occupies `crt_count` consecutive blocks of `poly_len` words,
/// the `n`-th block holding its transform modulo the `n`-th modulus.
#[derive(Clone, Debug)]
pub struct PolyMatrixNTT {
    pub rows: usize,
    pub cols: usize,
    pub data: Vec<u64>,
}

/// Position of coefficient `z` of the polynomial at `(r, c)` of a
/// coefficient-form matrix with `cols` columns.
pub open spec fn raw_index(params: &Params, cols: int, r: int, c: int, z: int) -> int {
    (r * cols + c) * (params.poly_len as int) + z
}

/// Position of word `z` of the `n`-th residue block of the polynomial at
/// `(r, c)` of a transformed matrix with `cols` columns.
pub open spec fn ntt_index(params: &Params, cols: int, r: int, c: int, n: int, z: int) -> int {
    (r * cols + c) * params.num_words() + n * (params.poly_len as int) + z
}

/// The residue block that word `i` of a transformed matrix belongs to.
pub open spec fn residue_of(params: &Params, i: int) -> int {
    (i % params.num_words()) / (params.poly_len as int)
}

/// The position inside its block of word `i` of a transformed matrix.
pub open spec fn position_of(params: &Params, i: int) -> int {
    (i % params.num_words()) % (params.poly_len as int)
}

/// Every word of transformed data lies below twice the modulus of its block.
pub open spec fn words_in_range(params: &Params, data: Seq<u64>) -> bool {
    forall|i: int|
        0 <= i < data.len() ==> (#[trigger] data[i] as int) < 2 * params.q(residue_of(params, i))
}

/// An index below `a * m` lies in one of the first `a` blocks of size `m`.
pub proof fn lemma_div_lt(i: int, a: int, m: int)
    requires
        0 <= i < a * m,
        m > 0,
    ensures
        0 <= i / m < a,
        0 <= i % m < m,
{
    lemma_fundamental_div_mod(i, m);
    lemma_mod_bound(i, m);
    let d: int = i / m;
    assert(0 <= d < a) by (nonlinear_arith)
        requires
            i == m * d + i % m,
            0 <= i % m < m,
            0 <= i < a * m,
            m > 0,
    ;
}

/// Block `p` of size `m` ends inside the first `a` blocks.
pub proof fn lemma_block_bound(p: int, a: int, m: int)
    requires
        0 <= p < a,
        m >= 0,
    ensures
        0 <= p * m,
        p * m + m <= a * m,
{
    assert(0 <= p * m && p * m + m <= a * m) by (nonlinear_arith)
        requires
            0 <= p < a,
            m >= 0,
    ;
}

/// A block number and an offset inside the block determine the index.
pub proof fn lemma_split(a: int, b: int, m: int)
    requires
        0 <= b < m,
    ensures
        (a * m + b) / m == a,
        (a * m + b) % m == b,
{
    lemma_fundamental_div_mod_converse(a * m + b, m, a, b);
}

/// The coordinates of a word of a transformed matrix, and back.
pub proof fn lemma_ntt_index(params: &Params, rows: int, cols: int, r: int, c: int, n: int, z: int)
    requires
        params.wf(),
        0 <= r < rows,
        0 <= c < cols,
        0 <= n < params.crt_count,
        0 <= z < params.poly_len,
    ensures
        0 <= ntt_index(params, cols, r, c, n, z) < rows * cols * params.num_words(),
        ntt_index(params, cols, r, c, n, z) / params.num_words() == r * cols + c,
        (r * cols + c) / cols == r,
        (r * cols + c) % cols == c,
        ntt_index(params, cols, r, c, n, z) % params.num_words() == n * params.poly_len + z,
        residue_of(params, ntt_index(params, cols, r, c, n, z)) == n,
        position_of(params, ntt_index(params, cols, r, c, n, z)) == z,
{
    let len: int = params.poly_len as int;
    let w: int = params.num_words();
    let inner: int = n * len + z;
    assert(0 <= inner < w) by (nonlinear_arith)
        requires
            0 <= n < params.crt_count,
            0 <= z < len,
            w == params.crt_count * len,
            inner == n * len + z,
    ;
    let pc: int = r * cols + c;
    assert(0 <= pc < rows * cols) by (nonlinear_arith)
        requires
            0 <= r < rows,
            0 <= c < cols,
            pc == r * cols + c,
    ;
    lemma_block_bound(pc, rows * cols, w);
    lemma_split(pc, inner, w);
    lemma_split(n, z, len);
    lemma_split(r, c, cols);
}

/// Word `z` of block `b` of transformed data belongs to polynomial
/// `b / crt_count` and residue `b % crt_count`.
pub proof fn lemma_block_coords(params: &Params, b: int, z: int)
    requires
        params.wf(),
        0 <= b,
        0 <= z < params.poly_len,
    ensures
        (b * params.poly_len + z) / params.num_words() == b / (params.crt_count as int),
        residue_of(params, b * params.poly_len + z) == b % (params.crt_count as int),
        position_of(params, b * params.poly_len + z) == z,
{
    let len: int = params.poly_len as int;
    let crt: int = params.crt_count as int;
    let w: int = params.num_words();
    let p: int = b / crt;
    let n: int = b % crt;
    lemma_fundamental_div_mod(b, crt);
    lemma_mod_bound(b, crt);
    let inner: int = n * len + z;
    assert(b * len + z == p * w + inner && 0 <= inner < w) by (nonlinear_arith)
        requires
            b == crt * p + n,
            w == crt * len,
            inner == n * len + z,
            0 <= n < crt,
            0 <= z < len,
    ;
    lemma_split(p, inner, w);
    lemma_split(n, z, len);
}

/// Every word of a transformed matrix has coordinates, and the coordinates
/// give the word back.
pub proof fn lemma_ntt_coords(params: &Params, rows: int, cols: int, i: int)
    requires
        params.wf(),
        0 <= i < rows * cols * params.num_words(),
        cols > 0,
    ensures
        0 <= i / params.num_words() / cols < rows,
        0 <= (i / params.num_words()) % cols < cols,
        0 <= residue_of(params, i) < params.crt_count,
        0 <= position_of(params, i) < params.poly_len,
        ntt_index(
            params,
            cols,
            i / params.num_words() / cols,
            (i / params.num_words()) % cols,
            residue_of(params, i),
            position_of(params, i),
        ) == i,
{
    let w: int = params.num_words();
    let len: int = params.poly_len as int;
    assert(w >= 1) by (nonlinear_arith)
        requires
            w == params.crt_count * len,
            params.crt_count >= 1,
            len >= 1,
    ;
    lemma_div_lt(i, rows * cols, w);
    lemma_div_lt(i / w, rows, cols);
    lemma_div_lt(i % w, params.crt_count as int, len);
    lemma_fundamental_div_mod(i, w);
    lemma_fundamental_div_mod(i / w, cols);
    lemma_fundamental_div_mod(i % w, len);
    let pc: int = i / w;
    let r: int = pc / cols;
    let c: int = pc % cols;
    let n: int = (i % w) / len;
    let z: int = (i % w) % len;
    assert((r * cols + c) * w + n * len + z == i) by (nonlinear_arith)
        requires
            i == w * pc + i % w,
            pc == cols * r + c,
            i % w == len * n + z,
    ;
}

impl PolyMatrixRaw {
    /// The storage has the size that the shape asks for.
    pub open spec fn wf(&self, params: &Params) -> bool {
        self.data@.len() == self.rows * self.cols * params.poly_len
    }

    /// Well-formed with the given shape.
    pub open spec fn is_shape(&self, params: &Params, rows: int, cols: int) -> bool {
        self.wf(params) && self.rows == rows && self.cols == cols
    }

    /// The all-zero matrix of the given shape.
    pub fn zero(params: &Params, rows: usize, cols: usize) -> (res: Self)
        requires
            params.wf(),
            rows * cols * params.poly_len <= usize::MAX,
        ensures
            res.is_shape(params, rows as int, cols as int),
            forall|i: int| 0 <= i < res.data@.len() ==> res.data@[i] == 0,
    {
        assert(rows * cols <= rows * cols * params.poly_len) by (nonlinear_arith)
            requires
                params.poly_len >= 1,
        ;
        let size: usize = rows * cols * params.poly_len;
        PolyMatrixRaw { rows, cols, data: vec![0u64; size] }
    }
}

impl PolyMatrixNTT {
    /// The storage has the size that the shape asks for.
    pub open spec fn wf(&self, params: &Params) -> bool {
        self.data@.len() == self.rows * self.cols * params.num_words()
    }

    /// Well-formed with the given shape.
    pub open spec fn is_shape(&self, params: &Params, rows: int, cols: int) -> bool {
        self.wf(params) && self.rows == rows && self.cols == cols
    }

    /// Every word lies below twice the modulus of its residue block.
    pub open spec fn in_range(&self, params: &Params) -> bool {
        words_in_range(params, self.data@)
    }

    /// The all-zero matrix of the given shape.
    pub fn zero(params: &Params, rows: usize, cols: usize) -> (res: Self)
        requires
            params.wf(),
            rows * cols * params.num_words() <= usize::MAX,
        ensures
            res.is_shape(params, rows as int, cols as int),
            forall|i: int| 0 <= i < res.data@.len() ==> res.data@[i] == 0,
            res.in_range(params),
    {
        let words: usize = params.words();
        assert(rows * cols <= rows * cols * words) by (nonlinear_arith)
            requires
                words >= 1,
        ;
        let size: usize = rows * cols * words;
        let res = PolyMatrixNTT { rows, cols, data: vec![0u64; size] };
        proof {
            assert forall|i: int| 0 <= i < res.data@.len() implies (#[trigger] res.data@[i] as int)
                < 2 * params.q(residue_of(params, i)) by {
                lemma_div_lt(
                    i % params.num_words(),
                    params.crt_count as int,
                    params.poly_len as int,
                );
            }
        }
        res
    }
}

/// Word `i` of the transform of coefficient-form data.
pub open spec fn to_ntt_word(params: &Params, raw: Seq<u64>, i: int) -> u64 {
    let n: int = residue_of(params, i);
    forward_coeff(
        raw,
        (i / params.num_words()) * (params.poly_len as int),
        params.poly_len as int,
        params.roots@[n] as int,
        params.q(n),
        position_of(params, i),
    ) as u64
}

/// The transform of coefficient-form data: every polynomial transformed
/// modulo every word-sized modulus.
pub open spec fn to_ntt_data(params: &Params, raw: Seq<u64>) -> Seq<u64> {
    Seq::new((raw.len() * params.crt_count) as nat, |i: int| to_ntt_word(params, raw, i))
}

/// Transforms every polynomial of `src` into `dst`, fully reduced.
pub fn to_ntt(params: &Params, dst: &mut PolyMatrixNTT, src: &PolyMatrixRaw)
    requires
        params.wf(),
        old(dst).wf(params),
        src.wf(params),
        old(dst).rows == src.rows,
        old(dst).cols == src.cols,
    ensures
        final(dst).wf(params),
        final(dst).rows == old(dst).rows,
        final(dst).cols == old(dst).cols,
        final(dst).data@ == to_ntt_data(params, src.data@),
        final(dst).in_range(params),
{
    let len: usize = params.poly_len;
    let crt: usize = params.crt_count;
    let words: usize = params.words();
    let total: usize = dst.data.len();
    let src_len: usize = src.data.len();
    let ghost polys: int = src.rows * src.cols;
    proof {
        assert(polys * params.num_words() == (polys * len) * params.crt_count && polys
            * params.num_words() == (polys * crt) * len) by (nonlinear_arith)
            requires
                params.num_words() == params.crt_count * len,
                crt == params.crt_count,
        ;
        lemma_split(polys * crt, 0, len as int);
        assert(polys >= 0) by (nonlinear_arith)
            requires
                polys == src.rows * src.cols,
        ;
    }
    let blocks: usize = total / len;
    let mut b: usize = 0;
    while b < blocks
        invariant
            params.wf(),
            len == params.poly_len,
            crt == params.crt_count,
            words == params.num_words(),
            total == dst.data@.len(),
            src_len == src.data@.len(),
            polys == src.rows * src.cols,
            blocks == polys * crt,
            total == blocks * len,
            src_len == polys * len,
            dst.rows == old(dst).rows,
            dst.cols == old(dst).cols,
            b <= blocks,
            forall|k: int| 0 <= k < b * len ==> dst.data@[k] == to_ntt_word(params, src.data@, k),
            forall|k: int|
                0 <= k < b * len ==> (#[trigger] dst.data@[k] as int) < params.q(
                    residue_of(params, k),
                ),
        decreases blocks - b,
    {
        proof {
            lemma_div_lt(b as int, polys, crt as int);
            lemma_block_bound((b / crt) as int, polys, len as int);
            lemma_block_bound(b as int, blocks as int, len as int);
        }
        let p: usize = b / crt;
        let n: usize = b % crt;
        let block: Vec<u64> = forward_block(params, n, &src.data, p * len);
        let base: usize = b * len;
        let mut z: usize = 0;
        while z < len
            invariant
                params.wf(),
                len == params.poly_len,
                crt == params.crt_count,
                total == dst.data@.len(),
                dst.rows == old(dst).rows,
                dst.cols == old(dst).cols,
                base == b * len,
                base + len <= total,
                p == b / crt,
                n == b % crt,
                n < crt,
                z <= len,
                block@.len() == len,
                forall|k: int|
                    0 <= k < len ==> (#[trigger] block@[k]) as int == forward_coeff(
                        src.data@,
                        (p * len) as int,
                        len as int,
                        params.roots@[n as int] as int,
                        params.q(n as int),
                        k,
                    ),
                forall|k: int| 0 <= k < len ==> (#[trigger] block@[k] as int) < params.q(n as int),
                forall|k: int|
                    0 <= k < base + z ==> dst.data@[k] == to_ntt_word(params, src.data@, k),
                forall|k: int|
                    0 <= k < base + z ==> (#[trigger] dst.data@[k] as int) < params.q(
                        residue_of(params, k),
                    ),
            decreases len - z,
        {
            proof {
                lemma_block_coords(params, b as int, z as int);
            }
            let val: u64 = block[z];
            dst.data[base + z] = val;
            z += 1;
        }
        proof {
            assert((b + 1) * len == base + len) by (nonlinear_arith)
                requires
                    base == b * len,
            ;
        }
        b += 1;
    }
    assert(dst.data@ =~= to_ntt_data(params, src.data@));
}

/// Transforms every polynomial of `src` into `dst`. The caller promises to
/// reduce before the next multiplication; this transform leaves nothing to
/// reduce.
pub fn to_ntt_no_reduce(params: &Params, dst: &mut PolyMatrixNTT, src: &PolyMatrixRaw)
    requires
        params.wf(),
        old(dst).wf(params),
        src.wf(params),
        old(dst).rows == src.rows,
        old(dst).cols == src.cols,
    ensures
        final(dst).wf(params),
        final(dst).rows == old(dst).rows,
        final(dst).cols == old(dst).cols,
        final(dst).data@ == to_ntt_data(params, src.data@),
        final(dst).in_range(params),
{
    to_ntt(params, dst, src);
}

/// The number below `q0 * q1` whose residues modulo the two moduli are
/// `x0` and `x1`.
pub open spec fn crt_compose(params: &Params, x0: int, x1: int) -> int {
    x0 + params.q(0) * (((x1 + params.q(1) - x0 % params.q(1)) * (params.crt_inv as int))
        % params.q(1))
}

/// Joins two residues into one coefficient modulo the ciphertext modulus.
pub fn crt_compose_2(params: &Params, x0: u64, x1: u64) -> (res: u64)
    requires
        params.wf(),
        params.crt_count == 2,
        (x0 as int) < params.q(0),
        (x1 as int) < params.q(1),
    ensures
        res as int == crt_compose(params, x0 as int, x1 as int),
        res < params.modulus,
{
    let q0: u64 = params.moduli[0];
    let q1: u64 = params.moduli[1];
    let x0r: u64 = barrett_coeff_u64(params, x0, 1);
    let diff: u64 = x1 + q1 - x0r;
    let h: u64 = mul_mod(params, diff, params.crt_inv, 1);
    assert(x0 + q0 * h < q0 * q1) by (nonlinear_arith)
        requires
            x0 < q0,
            h < q1,
    ;
    x0 + q0 * h
}

/// Coefficient `i` of the inverse transform of transformed data.
pub open spec fn from_ntt_word(params: &Params, ntt: Seq<u64>, i: int) -> u64 {
    let len: int = params.poly_len as int;
    let base: int = (i / len) * params.num_words();
    let x0: int = inverse_coeff(
        ntt,
        base,
        len,
        params.inv_roots@[0] as int,
        params.inv_poly_len@[0] as int,
        params.q(0),
        i % len,
    );
    if params.crt_count == 1 {
        x0 as u64
    } else {
        crt_compose(
            params,
            x0,
            inverse_coeff(
                ntt,
                base + len,
                len,
                params.inv_roots@[1] as int,
                params.inv_poly_len@[1] as int,
                params.q(1),
                i % len,
            ),
        ) as u64
    }
}

/// The inverse transform of transformed data: every polynomial brought back
/// to coefficients modulo the ciphertext modulus.
pub open spec fn from_ntt_data(params: &Params, ntt: Seq<u64>) -> Seq<u64> {
    Seq::new((ntt.len() / (params.crt_count as nat)) as nat, |i: int| from_ntt_word(params, ntt, i))
}

/// Brings every polynomial of `src` back to coefficient form in `dst`.
pub fn from_ntt(params: &Params, dst: &mut PolyMatrixRaw, src: &PolyMatrixNTT)
    requires
        params.wf(),
        old(dst).wf(params),
        src.wf(params),
        old(dst).rows == src.rows,
        old(dst).cols == src.cols,
    ensures
        final(dst).wf(params),
        final(dst).rows == old(dst).rows,
        final(dst).cols == old(dst).cols,
        final(dst).data@ == from_ntt_data(params, src.data@),
        forall|i: int| 0 <= i < final(dst).data@.len() ==> final(dst).data@[i] < params.modulus,
{
    let len: usize = params.poly_len;
    let crt: usize = params.crt_count;
    let words: usize = params.words();
    let total: usize = dst.data.len();
    let src_len: usize = src.data.len();
    let ghost polys: int = src.rows * src.cols;
    proof {
        assert(polys * params.num_words() == (polys * len) * params.crt_count) by (nonlinear_arith)
            requires
                params.num_words() == params.crt_count * len,
        ;
        lemma_split(polys * len, 0, params.crt_count as int);
        lemma_split(polys, 0, len as int);
        assert(len <= words) by (nonlinear_arith)
            requires
                words == params.crt_count * len,
                params.crt_count >= 1,
        ;
        assert(params.crt_count == 2 ==> words == len + len) by (nonlinear_arith)
            requires
                words == params.crt_count * len,
        ;
        assert(polys >= 0) by (nonlinear_arith)
            requires
                polys == src.rows * src.cols,
        ;
    }
    let count: usize = total / len;
    let mut p: usize = 0;
    while p < count
        invariant
            params.wf(),
            len == params.poly_len,
            crt == params.crt_count,
            words == params.num_words(),
            len <= words,
            crt == 2 ==> words == len + len,
            total == dst.data@.len(),
            src_len == src.data@.len(),
            count == polys,
            total == polys * len,
            src_len == polys * words,
            dst.rows == old(dst).rows,
            dst.cols == old(dst).cols,
            p <= count,
            forall|k: int|
                0 <= k < p * len ==> dst.data@[k] == from_ntt_word(params, src.data@, k),
            forall|k: int| 0 <= k < p * len ==> dst.data@[k] < params.modulus,
        decreases count - p,
    {
        proof {
            lemma_block_bound(p as int, polys, words as int);
            lemma_block_bound(p as int, polys, len as int);
        }
        let base: usize = p * words;
        let first: Vec<u64> = inverse_block(params, 0, &src.data, base);
        let second: Vec<u64> = if crt == 2 {
            inverse_block(params, 1, &src.data, base + len)
        } else {
            Vec::new()
        };
        let at: usize = p * len;
        let mut z: usize = 0;
        while z < len
            invariant
                params.wf(),
                len == params.poly_len,
                crt == params.crt_count,
                words == params.num_words(),
                total == dst.data@.len(),
                dst.rows == old(dst).rows,
                dst.cols == old(dst).cols,
                at == p * len,
                at + len <= total,
                base == p * words,
                z <= len,
                first@.len() == len,
                crt == 2 ==> second@.len() == len,
                forall|k: int|
                    0 <= k < len ==> (#[trigger] first@[k]) as int == inverse_coeff(
                        src.data@,
                        base as int,
                        len as int,
                        params.inv_roots@[0] as int,
                        params.inv_poly_len@[0] as int,
                        params.q(0),
                        k,
                    ),
                forall|k: int| 0 <= k < len ==> (#[trigger] first@[k] as int) < params.q(0),
                crt == 2 ==> forall|k: int|
                    0 <= k < len ==> (#[trigger] second@[k]) as int == inverse_coeff(
                        src.data@,
                        base + len,
                        len as int,
                        params.inv_roots@[1] as int,
                        params.inv_poly_len@[1] as int,
                        params.q(1),
                        k,
                    ),
                crt == 2 ==> forall|k: int|
                    0 <= k < len ==> (#[trigger] second@[k] as int) < params.q(1),
                forall|k: int|
                    0 <= k < at + z ==> dst.data@[k] == from_ntt_word(params, src.data@, k),
                forall|k: int| 0 <= k < at + z ==> dst.data@[k] < params.modulus,
            decreases len - z,
        {
            proof {
                lemma_split(p as int, z as int, len as int);
            }
            let x0: u64 = first[z];
            let val: u64 = if crt == 1 {
                x0
            } else {
                crt_compose_2(params, x0, second[z])
            };
            dst.data[at + z] = val;
            z += 1;
        }
        proof {
            assert((p + 1) * len == at + len) by (nonlinear_arith)
                requires
                    at == p * len,
            ;
        }
        p += 1;
    }
    assert(dst.data@ =~= from_ntt_data(params, src.data@));
}

/// Splits a word index of transformed data into the number of its
/// polynomial, its residue block and its position in the block.
pub fn ntt_coords(params: &Params, i: usize) -> (res: (usize, usize, usize))
    requires
        params.wf(),
    ensures
        res.0 == (i as int) / params.num_words(),
        res.1 == residue_of(params, i as int),
        res.2 == position_of(params, i as int),
        res.1 < params.crt_count,
        res.2 < params.poly_len,
{
    let words: usize = params.words();
    let len: usize = params.poly_len;
    proof {
        lemma_mod_bound(i as int, words as int);
        lemma_div_lt((i % words) as int, params.crt_count as int, len as int);
    }
    let w: usize = i % words;
    (i / words, w / len, w % len)
}

/// The index of a word of a transformed matrix from its coordinates.
pub fn ntt_offset(params: &Params, cols: usize, r: usize, c: usize, n: usize, z: usize) -> (res:
    usize)
    requires
        params.wf(),
        n < params.crt_count,
        z < params.poly_len,
        ntt_index(params, cols as int, r as int, c as int, n as int, z as int) <= usize::MAX,
    ensures
        res == ntt_index(params, cols as int, r as int, c as int, n as int, z as int),
{
    let words: usize = params.words();
    let len: usize = params.poly_len;
    assert(r * cols <= r * cols + c <= (r * cols + c) * words && n * len + z < words)
        by (nonlinear_arith)
        requires
            words >= 1,
            words == params.crt_count * len,
            n < params.crt_count,
            z < len,
    ;
    (r * cols + c) * words + n * len + z
}

/// Sum over the first `k` columns of `a` of the products of the words at
/// `(r, k', n, z)` of `a` and `(k', c, n, z)` of `b`.
pub open spec fn mul_sum(
    params: &Params,
    a: Seq<u64>,
    a_cols: int,
    b: Seq<u64>,
    b_cols: int,
    r: int,
    c: int,
    n: int,
    z: int,
    k: int,
) -> int
    decreases k,
{
    if k <= 0 {
        0
    } else {
        mul_sum(params, a, a_cols, b, b_cols, r, c, n, z, k - 1) + (a[ntt_index(
            params,
            a_cols,
            r,
            k - 1,
            n,
            z,
        )] as int) * (b[ntt_index(params, b_cols, k - 1, c, n, z)] as int)
    }
}

/// Word `i` of the matrix product of transformed matrices.
pub open spec fn multiply_word(
    params: &Params,
    a: Seq<u64>,
    a_cols: int,
    b: Seq<u64>,
    b_cols: int,
    i: int,
) -> u64 {
    let poly: int = i / params.num_words();
    let n: int = residue_of(params, i);
    (mul_sum(
        params,
        a,
        a_cols,
        b,
        b_cols,
        poly / b_cols,
        poly % b_cols,
        n,
        position_of(params, i),
        a_cols,
    ) % params.q(n)) as u64
}

/// The product of an `a_rows x a_cols` and an `a_cols x b_cols` matrix in
/// transformed form: position by position, modulo the modulus of the block.
pub open spec fn multiply_data(
    params: &Params,
    a: Seq<u64>,
    a_rows: int,
    a_cols: int,
    b: Seq<u64>,
    b_cols: int,
) -> Seq<u64> {
    Seq::new(
        (a_rows * b_cols * params.num_words()) as nat,
        |i: int| multiply_word(params, a, a_cols, b, b_cols, i),
    )
}

/// `res = a * b` for matrices in transformed form.
pub fn multiply(params: &Params, res: &mut PolyMatrixNTT, a: &PolyMatrixNTT, b: &PolyMatrixNTT)
    requires
        params.wf(),
        old(res).wf(params),
        a.wf(params),
        b.wf(params),
        old(res).rows == a.rows,
        old(res).cols == b.cols,
        a.cols == b.rows,
    ensures
        final(res).wf(params),
        final(res).rows == old(res).rows,
        final(res).cols == old(res).cols,
        final(res).data@ == multiply_data(
            params,
            a.data@,
            a.rows as int,
            a.cols as int,
            b.data@,
            b.cols as int,
        ),
        final(res).in_range(params),
{
    let total: usize = res.data.len();
    let words: usize = params.words();
    let a_len: usize = a.data.len();
    let b_len: usize = b.data.len();
    let b_cols: usize = b.cols;
    let a_cols: usize = a.cols;
    if b_cols == 0 {
        assert(a.rows * b.cols * params.num_words() == 0) by (nonlinear_arith)
            requires
                b.cols == 0,
        ;
        assert(res.data@ =~= multiply_data(
            params,
            a.data@,
            a.rows as int,
            a.cols as int,
            b.data@,
            b.cols as int,
        ));
        return ;
    }
    let mut i: usize = 0;
    while i < total
        invariant
            params.wf(),
            a.wf(params),
            b.wf(params),
            res.rows == a.rows,
            res.cols == b.cols,
            res.rows == old(res).rows,
            res.cols == old(res).cols,
            a.cols == b.rows,
            b_cols == b.cols,
            a_cols == a.cols,
            b_cols > 0,
            words == params.num_words(),
            words >= 1,
            total == res.data@.len(),
            total == a.rows * b.cols * params.num_words(),
            a_len == a.data@.len(),
            b_len == b.data@.len(),
            i <= total,
            forall|k: int|
                0 <= k < i ==> res.data@[k] == multiply_word(
                    params,
                    a.data@,
                    a.cols as int,
                    b.data@,
                    b.cols as int,
                    k,
                ),
            forall|k: int|
                0 <= k < i ==> (#[trigger] res.data@[k] as int) < params.q(residue_of(params, k)),
        decreases total - i,
    {
        let coords: (usize, usize, usize) = ntt_coords(params, i);
        let poly: usize = coords.0;
        let n: usize = coords.1;
        let z: usize = coords.2;
        proof {
            lemma_div_lt(i as int, a.rows * b.cols, params.num_words());
            lemma_div_lt(poly as int, a.rows as int, b.cols as int);
            lemma_fundamental_div_mod(poly as int, b.cols as int);
        }
        let r: usize = poly / b_cols;
        let c: usize = poly % b_cols;
        let ghost q: int = params.q(n as int);
        let mut acc: u64 = 0;
        let mut k: usize = 0;
        proof {
            lemma_small_mod(0, q as nat);
        }
        while k < a_cols
            invariant
                params.wf(),
                a.wf(params),
                b.wf(params),
                a.cols == b.rows,
                b_cols == b.cols,
                a_cols == a.cols,
                a_len == a.data@.len(),
                b_len == b.data@.len(),
                r < a.rows,
                c < b.cols,
                n < params.crt_count,
                z < params.poly_len,
                q == params.q(n as int),
                k <= a_cols,
                (acc as int) < q,
                acc as int == mul_sum(
                    params,
                    a.data@,
                    a.cols as int,
                    b.data@,
                    b.cols as int,
                    r as int,
                    c as int,
                    n as int,
                    z as int,
                    k as int,
                ) % q,
            decreases a_cols - k,
        {
            proof {
                lemma_ntt_index(
                    params,
                    a.rows as int,
                    a.cols as int,
                    r as int,
                    k as int,
                    n as int,
                    z as int,
                );
                lemma_ntt_index(
                    params,
                    b.rows as int,
                    b.cols as int,
                    k as int,
                    c as int,
                    n as int,
                    z as int,
                );
            }
            let ia: usize = ntt_offset(params, a_cols, r, k, n, z);
            let ib: usize = ntt_offset(params, b_cols, k, c, n, z);
            let x: u64 = a.data[ia];
            let y: u64 = b.data[ib];
            proof {
                let prev: int = mul_sum(
                    params,
                    a.data@,
                    a.cols as int,
                    b.data@,
                    b.cols as int,
                    r as int,
                    c as int,
                    n as int,
                    z as int,
                    k as int,
                );
                lemma_mod_twice(prev, q);
                lemma_mod_add_congruent(acc as int, prev, (x as int) * (y as int), q);
            }
            acc = mul_add_mod(params, acc, x, y, n);
            k += 1;
        }
        res.data[i] = acc;
        i += 1;
    }
    assert(res.data@ =~= multiply_data(
        params,
        a.data@,
        a.rows as int,
        a.cols as int,
        b.data@,
        b.cols as int,
    ));
}

/// The phase of column `c` of a two-row matrix under the key residue `s`, at
/// residue `n` and position `z`: the word of the second row minus `s` times
/// the word of the first row. For a ciphertext and the transform of its key
/// this is, modulo the `n`-th modulus, the transform of what it decrypts to.
pub open spec fn column_phase(
    params: &Params,
    data: Seq<u64>,
    cols: int,
    c: int,
    s: int,
    n: int,
    z: int,
) -> int {
    (data[ntt_index(params, cols, 1, c, n, z)] as int) - s * (data[ntt_index(
        params,
        cols,
        0,
        c,
        n,
        z,
    )] as int)
}

/// Sum over the first `k` columns of the two-row matrix `a` of the phase of
/// the column times the word at `(k', c)` of `b`.
pub open spec fn phase_product(
    params: &Params,
    a: Seq<u64>,
    a_cols: int,
    b: Seq<u64>,
    b_cols: int,
    c: int,
    s: int,
    n: int,
    z: int,
    k: int,
) -> int
    decreases k,
{
    if k <= 0 {
        0
    } else {
        phase_product(params, a, a_cols, b, b_cols, c, s, n, z, k - 1) + column_phase(
            params,
            a,
            a_cols,
            k - 1,
            s,
            n,
            z,
        ) * (b[ntt_index(params, b_cols, k - 1, c, n, z)] as int)
    }
}

/// The second row of a product minus `s` times its first row, before
/// reduction, is the sum of the phases of the columns times the entries.
proof fn lemma_phase_of_mul_sum(
    params: &Params,
    a: Seq<u64>,
    a_cols: int,
    b: Seq<u64>,
    b_cols: int,
    c: int,
    s: int,
    n: int,
    z: int,
    k: int,
)
    requires
        0 <= k,
    ensures
        mul_sum(params, a, a_cols, b, b_cols, 1, c, n, z, k) - s * mul_sum(
            params,
            a,
            a_cols,
            b,
            b_cols,
            0,
            c,
            n,
            z,
            k,
        ) == phase_product(params, a, a_cols, b, b_cols, c, s, n, z, k),
    decreases k,
{
    if k > 0 {
        lemma_phase_of_mul_sum(params, a, a_cols, b, b_cols, c, s, n, z, k - 1);
        let m1: int = mul_sum(params, a, a_cols, b, b_cols, 1, c, n, z, k - 1);
        let m0: int = mul_sum(params, a, a_cols, b, b_cols, 0, c, n, z, k - 1);
        let a1: int = a[ntt_index(params, a_cols, 1, k - 1, n, z)] as int;
        let a0: int = a[ntt_index(params, a_cols, 0, k - 1, n, z)] as int;
        let d: int = b[ntt_index(params, b_cols, k - 1, c, n, z)] as int;
        assert((m1 + a1 * d) - s * (m0 + a0 * d) == (m1 - s * m0) + (a1 - s * a0) * d)
            by (nonlinear_arith);
    }
}

/// Decryption commutes with multiplication by a two-row key. For every key
/// residue `s`, the phase of column `c` of the product of a `2 x a_cols`
/// matrix `a` with a matrix `b` is, modulo the modulus of the residue, the
/// sum over `k` of the phase of column `k` of `a` times entry `(k, c)` of
/// `b`.
pub proof fn lemma_product_phase(
    params: &Params,
    a: Seq<u64>,
    a_cols: int,
    b: Seq<u64>,
    b_cols: int,
    c: int,
    s: int,
    n: int,
    z: int,
)
    requires
        params.wf(),
        0 <= a_cols,
        0 <= c < b_cols,
        0 <= n < params.crt_count,
        0 <= z < params.poly_len,
    ensures
        column_phase(params, multiply_data(params, a, 2, a_cols, b, b_cols), b_cols, c, s, n, z)
            % params.q(n) == phase_product(params, a, a_cols, b, b_cols, c, s, n, z, a_cols)
            % params.q(n),
{
    let q: int = params.q(n);
    let prod: Seq<u64> = multiply_data(params, a, 2, a_cols, b, b_cols);
    let i1: int = ntt_index(params, b_cols, 1, c, n, z);
    let i0: int = ntt_index(params, b_cols, 0, c, n, z);
    lemma_ntt_index(params, 2, b_cols, 1, c, n, z);
    lemma_ntt_index(params, 2, b_cols, 0, c, n, z);
    let m1: int = mul_sum(params, a, a_cols, b, b_cols, 1, c, n, z, a_cols);
    let m0: int = mul_sum(params, a, a_cols, b, b_cols, 0, c, n, z, a_cols);
    lemma_mod_bound(m1, q);
    lemma_mod_bound(m0, q);
    assert(prod[i1] == multiply_word(params, a, a_cols, b, b_cols, i1));
    assert(prod[i0] == multiply_word(params, a, a_cols, b, b_cols, i0));
    assert(prod[i1] as int == m1 % q);
    assert(prod[i0] as int == m0 % q);
    lemma_phase_of_mul_sum(params, a, a_cols, b, b_cols, c, s, n, z, a_cols);
    lemma_mul_mod_noop_right(s, m0, q);
    lemma_sub_mod_noop(m1, s * m0, q);
    lemma_sub_mod_noop(m1 % q, s * (m0 % q), q);
    lemma_mod_twice(m1, q);
}

/// Word `i` of the product of the single polynomial `a` with the matrix `b`.
pub open spec fn scalar_multiply_word(params: &Params, a: Seq<u64>, b: Seq<u64>, i: int) -> u64 {
    (((a[i % params.num_words()] as int) * (b[i] as int)) % params.q(residue_of(params, i))) as u64
}

/// Every polynomial of `b` multiplied by the single polynomial `a`, in
/// transformed form.
pub open spec fn scalar_multiply_data(params: &Params, a: Seq<u64>, b: Seq<u64>) -> Seq<u64> {
    Seq::new(b.len(), |i: int| scalar_multiply_word(params, a, b, i))
}

/// `res = a * b` where `a` is a `1 x 1` matrix.
pub fn scalar_multiply(
    params: &Params,
    res: &mut PolyMatrixNTT,
    a: &PolyMatrixNTT,
    b: &PolyMatrixNTT,
)
    requires
        params.wf(),
        old(res).wf(params),
        a.is_shape(params, 1, 1),
        b.wf(params),
        old(res).rows == b.rows,
        old(res).cols == b.cols,
    ensures
        final(res).wf(params),
        final(res).rows == old(res).rows,
        final(res).cols == old(res).cols,
        final(res).data@ == scalar_multiply_data(params, a.data@, b.data@),
        final(res).in_range(params),
{
    let total: usize = res.data.len();
    let words: usize = params.words();
    let a_len: usize = a.data.len();
    let b_len: usize = b.data.len();
    assert(a.rows * a.cols * params.num_words() == params.num_words()) by (nonlinear_arith)
        requires
            a.rows == 1,
            a.cols == 1,
    ;
    let mut i: usize = 0;
    while i < total
        invariant
            params.wf(),
            words == params.num_words(),
            res.rows == old(res).rows,
            res.cols == old(res).cols,
            total == res.data@.len(),
            total == b.data@.len(),
            a_len == a.data@.len(),
            a_len == words,
            b_len == b.data@.len(),
            i <= total,
            forall|k: int|
                0 <= k < i ==> res.data@[k] == scalar_multiply_word(params, a.data@, b.data@, k),
            forall|k: int|
                0 <= k < i ==> (#[trigger] res.data@[k] as int) < params.q(residue_of(params, k)),
        decreases total - i,
    {
        let coords: (usize, usize, usize) = ntt_coords(params, i);
        let n: usize = coords.1;
        proof {
            lemma_mod_bound(i as int, words as int);
        }
        let val: u64 = mul_mod(params, a.data[i % words], b.data[i], n);
        res.data[i] = val;
        i += 1;
    }
    assert(res.data@ =~= scalar_multiply_data(params, a.data@, b.data@));
}

/// The negation of `x` modulo `q`, in `[0, q)`.
pub open spec fn neg_mod(x: u64, q: u64) -> u64 {
    if x % q == 0 {
        0
    } else {
        (q - x % q) as u64
    }
}

/// Coefficient `k` of the image under `x -> x^t` of the polynomial whose
/// `len` coefficients start at `off`, counting only its first `i`
/// coefficients: coefficient `j` goes to position `j * t mod 2 * len`, and
/// a position `k + len` stands for position `k` with the sign changed.
pub open spec fn automorph_coeff(
    a: Seq<u64>,
    off: int,
    len: int,
    t: int,
    q: u64,
    k: int,
    i: int,
) -> u64
    decreases i,
{
    if i <= 0 {
        0
    } else {
        let e: int = ((i - 1) * t) % (2 * len);
        if e == k {
            a[off + i - 1]
        } else if e == k + len {
            neg_mod(a[off + i - 1], q)
        } else {
            automorph_coeff(a, off, len, t, q, k, i - 1)
        }
    }
}

/// Coefficient `i` of the data of a matrix to which `x -> x^t` was applied
/// polynomial by polynomial.
pub open spec fn automorph_word(params: &Params, a: Seq<u64>, t: int, i: int) -> u64 {
    let len: int = params.poly_len as int;
    automorph_coeff(a, (i / len) * len, len, t, params.modulus, i % len, len)
}

/// The automorphism `x -> x^t` applied to every polynomial of
/// coefficient-form data.
pub open spec fn automorph_data(params: &Params, a: Seq<u64>, t: int) -> Seq<u64> {
    Seq::new(a.len(), |i: int| automorph_word(params, a, t, i))
}

/// Applies the automorphism `x -> x^t` to every polynomial of `a`.
pub fn automorph(params: &Params, res: &mut PolyMatrixRaw, a: &PolyMatrixRaw, t: usize)
    requires
        params.wf(),
        old(res).wf(params),
        a.wf(params),
        old(res).rows == a.rows,
        old(res).cols == a.cols,
    ensures
        final(res).wf(params),
        final(res).rows == old(res).rows,
        final(res).cols == old(res).cols,
        final(res).data@ == automorph_data(params, a.data@, t as int),
{
    let len: usize = params.poly_len;
    let total: usize = res.data.len();
    let a_len: usize = a.data.len();
    let polys: usize = total / len;
    let modulus: u64 = params.modulus;
    let two_len: u64 = 2 * (len as u64);
    let tt: u64 = ((t as u64) % two_len);
    let ghost count: int = a.rows * a.cols;
    proof {
        lemma_split(count, 0, len as int);
    }
    let mut p: usize = 0;
    while p < polys
        invariant
            params.wf(),
            len == params.poly_len,
            modulus == params.modulus,
            two_len == 2 * len,
            tt == (t as int) % (2 * len),
            res.rows == old(res).rows,
            res.cols == old(res).cols,
            total == res.data@.len(),
            a_len == total,
            a_len == a.data@.len(),
            total == polys * len,
            p <= polys,
            forall|k: int|
                0 <= k < p * len ==> res.data@[k] == automorph_word(params, a.data@, t as int, k),
        decreases polys - p,
    {
        proof {
            lemma_block_bound(p as int, polys as int, len as int);
        }
        let off: usize = p * len;
        let mut k: usize = 0;
        while k < len
            invariant
                params.wf(),
                len == params.poly_len,
                res.rows == old(res).rows,
                res.cols == old(res).cols,
                total == res.data@.len(),
                off == p * len,
                off + len <= total,
                k <= len,
                forall|j: int|
                    0 <= j < off ==> res.data@[j] == automorph_word(params, a.data@, t as int, j),
                forall|j: int| off <= j < off + k ==> res.data@[j] == 0,
            decreases len - k,
        {
            res.data[off + k] = 0;
            k += 1;
        }
        let mut i: usize = 0;
        while i < len
            invariant
                params.wf(),
                len == params.poly_len,
                modulus == params.modulus,
                two_len == 2 * len,
                tt == (t as int) % (2 * len),
                res.rows == old(res).rows,
                res.cols == old(res).cols,
                total == res.data@.len(),
                a_len == total,
                a_len == a.data@.len(),
                off == p * len,
                off + len <= total,
                i <= len,
                forall|j: int|
                    0 <= j < off ==> res.data@[j] == automorph_word(params, a.data@, t as int, j),
                forall|j: int|
                    off <= j < off + len ==> res.data@[j] == automorph_coeff(
                        a.data@,
                        off as int,
                        len as int,
                        t as int,
                        modulus,
                        j - off,
                        i as int,
                    ),
            decreases len - i,
        {
            assert((i as u64) * tt < 0x1000_0000 * 0x2000_0000) by (nonlinear_arith)
                requires
                    i < 0x1000_0000,
                    tt < 0x2000_0000,
            ;
            proof {
                lemma_mul_mod_noop_right(i as int, t as int, 2 * len);
                lemma_mod_bound((i as int) * (t as int), 2 * len);
            }
            let e: u64 = ((i as u64) * tt) % two_len;
            let x: u64 = a.data[off + i];
            if e < len as u64 {
                res.data[off + (e as usize)] = x;
            } else {
                let xr: u64 = x % modulus;
                let y: u64 = if xr == 0 {
                    0
                } else {
                    modulus - xr
                };
                res.data[off + ((e - len as u64) as usize)] = y;
            }
            i += 1;
        }
        proof {
            assert forall|k: int| 0 <= k < (p + 1) * len implies res.data@[k] == automorph_word(
                params,
                a.data@,
                t as int,
                k,
            ) by {
                assert((p + 1) * len == off + len) by (nonlinear_arith)
                    requires
                        off == p * len,
                ;
                if k >= off {
                    lemma_split(p as int, k - off, len as int);
                    assert(res.data@[k] == automorph_coeff(
                        a.data@,
                        off as int,
                        len as int,
                        t as int,
                        modulus,
                        k - off,
                        len as int,
                    ));
                }
            }
        }
        p += 1;
    }
    assert(res.data@ =~= automorph_data(params, a.data@, t as int));
}

/// Word `i` of a matrix with `dst_cols` columns and `w` words per
/// polynomial after the `src_rows x src_cols` matrix `src` was written into
/// it with its corner at `(tr, tc)`.
pub open spec fn copy_into_word(
    before: Seq<u64>,
    dst_cols: int,
    src: Seq<u64>,
    src_rows: int,
    src_cols: int,
    tr: int,
    tc: int,
    w: int,
    i: int,
) -> u64 {
    let poly: int = i / w;
    let r: int = poly / dst_cols;
    let c: int = poly % dst_cols;
    if tr <= r < tr + src_rows && tc <= c < tc + src_cols {
        src[((r - tr) * src_cols + (c - tc)) * w + i % w]
    } else {
        before[i]
    }
}

/// The data of a matrix after `src` was written into it at `(tr, tc)`.
pub open spec fn copy_into_data(
    before: Seq<u64>,
    dst_cols: int,
    src: Seq<u64>,
    src_rows: int,
    src_cols: int,
    tr: int,
    tc: int,
    w: int,
) -> Seq<u64> {
    Seq::new(
        before.len(),
        |i: int| copy_into_word(before, dst_cols, src, src_rows, src_cols, tr, tc, w, i),
    )
}

/// Writes the polynomials of `src` into `dst` with the corner at `(tr, tc)`,
/// for matrices stored with `w` words per polynomial.
fn copy_block(
    dst: &mut Vec<u64>,
    dst_rows: usize,
    dst_cols: usize,
    src: &Vec<u64>,
    src_rows: usize,
    src_cols: usize,
    tr: usize,
    tc: usize,
    w: usize,
)
    requires
        w >= 1,
        old(dst)@.len() == dst_rows * dst_cols * w,
        src@.len() == src_rows * src_cols * w,
        tr + src_rows <= dst_rows,
        tc + src_cols <= dst_cols,
    ensures
        final(dst)@ == copy_into_data(
            old(dst)@,
            dst_cols as int,
            src@,
            src_rows as int,
            src_cols as int,
            tr as int,
            tc as int,
            w as int,
        ),
{
    let total: usize = dst.len();
    let src_len: usize = src.len();
    let ghost before: Seq<u64> = dst@;
    if dst_cols == 0 {
        assert(dst_rows * dst_cols * w == 0) by (nonlinear_arith)
            requires
                dst_cols == 0,
        ;
        assert(dst@ =~= copy_into_data(
            before,
            dst_cols as int,
            src@,
            src_rows as int,
            src_cols as int,
            tr as int,
            tc as int,
            w as int,
        ));
        return ;
    }
    let mut i: usize = 0;
    while i < total
        invariant
            w >= 1,
            dst_cols > 0,
            total == dst@.len(),
            total == before.len(),
            total == dst_rows * dst_cols * w,
            src_len == src@.len(),
            src_len == src_rows * src_cols * w,
            tr + src_rows <= dst_rows,
            tc + src_cols <= dst_cols,
            i <= total,
            forall|k: int|
                0 <= k < i ==> dst@[k] == copy_into_word(
                    before,
                    dst_cols as int,
                    src@,
                    src_rows as int,
                    src_cols as int,
                    tr as int,
                    tc as int,
                    w as int,
                    k,
                ),
            forall|k: int| i <= k < total ==> dst@[k] == before[k],
        decreases total - i,
    {
        proof {
            lemma_div_lt(i as int, dst_rows * dst_cols, w as int);
            lemma_div_lt((i / w) as int, dst_rows as int, dst_cols as int);
        }
        let poly: usize = i / w;
        let r: usize = poly / dst_cols;
        let c: usize = poly % dst_cols;
        if tr <= r && r < tr + src_rows && tc <= c && c < tc + src_cols {
            proof {
                let pc: int = (r - tr) * src_cols + (c - tc);
                assert(0 <= (r - tr) * src_cols && 0 <= pc < src_rows * src_cols)
                    by (nonlinear_arith)
                    requires
                        0 <= r - tr < src_rows,
                        0 <= c - tc < src_cols,
                        pc == (r - tr) * src_cols + (c - tc),
                ;
                lemma_block_bound(pc, src_rows * src_cols, w as int);
                lemma_mod_bound(i as int, w as int);
                assert(pc <= pc * w) by (nonlinear_arith)
                    requires
                        0 <= pc,
                        w >= 1,
                ;
            }
            let from: usize = ((r - tr) * src_cols + (c - tc)) * w + i % w;
            let val: u64 = src[from];
            dst[i] = val;
        }
        i += 1;
    }
    assert(dst@ =~= copy_into_data(
        before,
        dst_cols as int,
        src@,
        src_rows as int,
        src_cols as int,
        tr as int,
        tc as int,
        w as int,
    ));
}

impl PolyMatrixRaw {
    /// Makes this `1 x 1` matrix a copy of the polynomial at `(r, c)` of
    /// `src`.
    pub fn copy_poly(&mut self, params: &Params, src: &PolyMatrixRaw, r: usize, c: usize)
        requires
            params.wf(),
            old(self).is_shape(params, 1, 1),
            src.wf(params),
            r < src.rows,
            c < src.cols,
        ensures
            final(self).is_shape(params, 1, 1),
            final(self).data@ == src.data@.subrange(
                raw_index(params, src.cols as int, r as int, c as int, 0),
                raw_index(params, src.cols as int, r as int, c as int, 0) + params.poly_len,
            ),
    {
        let len: usize = params.poly_len;
        let src_len: usize = src.data.len();
        let total: usize = self.data.len();
        proof {
            let pc: int = r * src.cols + c;
            assert(0 <= r * src.cols <= pc < src.rows * src.cols && pc <= pc * len)
                by (nonlinear_arith)
                requires
                    0 <= r < src.rows,
                    0 <= c < src.cols,
                    pc == r * src.cols + c,
                    len >= 1,
            ;
            lemma_block_bound(pc, src.rows * src.cols, len as int);
            assert(self.rows * self.cols * len == len) by (nonlinear_arith)
                requires
                    self.rows == 1,
                    self.cols == 1,
            ;
        }
        let off: usize = (r * src.cols + c) * len;
        let mut z: usize = 0;
        while z < len
            invariant
                len == params.poly_len,
                src_len == src.data@.len(),
                off + len <= src_len,
                total == len,
                total == self.data@.len(),
                self.rows == 1,
                self.cols == 1,
                z <= len,
                forall|k: int| 0 <= k < z ==> self.data@[k] == src.data@[off + k],
            decreases len - z,
        {
            let val: u64 = src.data[off + z];
            self.data[z] = val;
            z += 1;
        }
        assert(self.data@ =~= src.data@.subrange(off as int, off + len));
    }

    /// Writes `p` into this matrix with its corner at
    /// `(target_row, target_col)`.
    pub fn copy_into(
        &mut self,
        params: &Params,
        p: &PolyMatrixRaw,
        target_row: usize,
        target_col: usize,
    )
        requires
            params.wf(),
            old(self).wf(params),
            p.wf(params),
            target_row + p.rows <= old(self).rows,
            target_col + p.cols <= old(self).cols,
        ensures
            final(self).wf(params),
            final(self).rows == old(self).rows,
            final(self).cols == old(self).cols,
            final(self).data@ == copy_into_data(
                old(self).data@,
                old(self).cols as int,
                p.data@,
                p.rows as int,
                p.cols as int,
                target_row as int,
                target_col as int,
                params.poly_len as int,
            ),
    {
        copy_block(
            &mut self.data,
            self.rows,
            self.cols,
            &p.data,
            p.rows,
            p.cols,
            target_row,
            target_col,
            params.poly_len,
        );
    }
}

impl PolyMatrixNTT {
    /// Writes `p` into this matrix with its corner at
    /// `(target_row, target_col)`.
    pub fn copy_into(
        &mut self,
        params: &Params,
        p: &PolyMatrixNTT,
        target_row: usize,
        target_col: usize,
    )
        requires
            params.wf(),
            old(self).wf(params),
            p.wf(params),
            target_row + p.rows <= old(self).rows,
            target_col + p.cols <= old(self).cols,
        ensures
            final(self).wf(params),
            final(self).rows == old(self).rows,
            final(self).cols == old(self).cols,
            final(self).data@ == copy_into_data(
                old(self).data@,
                old(self).cols as int,
                p.data@,
                p.rows as int,
                p.cols as int,
                target_row as int,
                target_col as int,
                params.num_words(),
            ),
    {
        let words: usize = params.words();
        copy_block(
            &mut self.data,
            self.rows,
            self.cols,
            &p.data,
            p.rows,
            p.cols,
            target_row,
            target_col,
            words,
        );
    }
}

} // verus!
