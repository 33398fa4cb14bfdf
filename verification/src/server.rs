//! The three stages of answering one query: coefficient expansion,
//! Regev-to-GSW conversion, and the packed first-dimension inner product.

use vstd::prelude::*;
use vstd::arithmetic::div_mod::*;
use vstd::arithmetic::power2::*;
use rand::rngs::StdRng;
use crate::arith::{barrett_coeff_u64, lemma_add3_mod, lemma_mod_add_congruent};
use crate::gadget::{gadget_data, gadget_invert, gadget_invert_rdim};
use crate::ntt::forward_coeff;
use crate::params::Params;
use crate::poly::{
    automorph, automorph_data, column_phase, copy_into_data, from_ntt, from_ntt_data,
    lemma_block_bound, lemma_div_lt, lemma_ntt_coords, lemma_ntt_index, lemma_product_phase,
    mul_sum, multiply, multiply_data, multiply_word, ntt_coords, ntt_index, phase_product,
    position_of, residue_of, scalar_multiply, scalar_multiply_data, to_ntt, to_ntt_data,
    to_ntt_no_reduce, to_ntt_word, words_in_range, PolyMatrixNTT, PolyMatrixRaw,
};
use crate::util::{
    draw_words, get_seeded_rng, pack, pack_residues, packed_residue, pow2_usize, recenter,
    recenter_mod,
};

verus! {

/// Number of operand pairs summed between two reductions.
pub const MAX_SUMMED: usize = 64;

/// Bit offset of the second residue inside a packed word.
pub const PACKED_OFFSET_2: i32 = 32;

/// Both residues of a packed word lie below twice their modulus.
pub open spec fn packed_in_range(params: &Params, w: u64) -> bool {
    packed_residue(w, 0) < 2 * params.q(0) && packed_residue(w, 1) < 2 * params.q(1)
}

/// Sum over the first `k` entries of the first dimension of the products of
/// the `n`-th residues of ciphertext row `row` and database entry, where the
/// ciphertext words start at `a_base` and the database words at `b_base`.
pub open spec fn dot(
    db: Seq<u64>,
    v: Seq<u64>,
    a_base: int,
    b_base: int,
    row: int,
    n: int,
    k: int,
) -> int
    decreases k,
{
    if k <= 0 {
        0
    } else {
        dot(db, v, a_base, b_base, row, n, k - 1) + packed_residue(
            v[a_base + 2 * (k - 1) + row],
            n,
        ) * packed_residue(db[b_base + (k - 1)], n)
    }
}

/// The word that the inner product puts at row `row`, residue `n`,
/// position `z` of output `i`.
pub open spec fn first_dim_coeff(
    params: &Params,
    db: Seq<u64>,
    v: Seq<u64>,
    dim0: int,
    num_per: int,
    i: int,
    row: int,
    n: int,
    z: int,
) -> int {
    dot(db, v, z * (dim0 * 2), z * (num_per * dim0) + i * dim0, row, n, dim0) % params.q(n)
}

/// The part of `dot` that one accumulator lane sees: lane `l` takes row
/// `l % 2` of every second ciphertext, starting with the ciphertext `l / 2`.
pub open spec fn lane_sum(
    db: Seq<u64>,
    v: Seq<u64>,
    a_base: int,
    b_base: int,
    lane: int,
    n: int,
    m: int,
) -> int
    decreases m,
{
    if m <= 0 {
        0
    } else {
        lane_sum(db, v, a_base, b_base, lane, n, m - 1) + packed_residue(
            v[a_base + 4 * (m - 1) + lane],
            n,
        ) * packed_residue(db[b_base + 2 * (m - 1) + lane / 2], n)
    }
}

/// The lanes `row` and `row + 2` together see every term of `dot`.
proof fn lemma_lanes_cover(
    db: Seq<u64>,
    v: Seq<u64>,
    a_base: int,
    b_base: int,
    row: int,
    n: int,
    m: int,
)
    requires
        0 <= row < 2,
        0 <= m,
    ensures
        dot(db, v, a_base, b_base, row, n, 2 * m) == lane_sum(db, v, a_base, b_base, row, n, m)
            + lane_sum(db, v, a_base, b_base, row + 2, n, m),
    decreases m,
{
    if m > 0 {
        lemma_lanes_cover(db, v, a_base, b_base, row, n, m - 1);
        assert(dot(db, v, a_base, b_base, row, n, 2 * m) == dot(
            db,
            v,
            a_base,
            b_base,
            row,
            n,
            2 * m - 1,
        ) + packed_residue(v[a_base + 2 * (2 * m - 1) + row], n) * packed_residue(
            db[b_base + (2 * m - 1)],
            n,
        ));
        assert(dot(db, v, a_base, b_base, row, n, 2 * m - 1) == dot(
            db,
            v,
            a_base,
            b_base,
            row,
            n,
            2 * m - 2,
        ) + packed_residue(v[a_base + 2 * (2 * m - 2) + row], n) * packed_residue(
            db[b_base + (2 * m - 2)],
            n,
        ));
        assert((row + 2) / 2 == 1);
        assert(row / 2 == 0);
    }
}

/// Product of the `n`-th residues of two packed words.
fn packed_mul(a: u64, b: u64, n: usize) -> (r: u64)
    ensures
        r as int == packed_residue(a, n as int) * packed_residue(b, n as int),
{
    let x: u64 = if n == 0 {
        a & 0xffff_ffff
    } else {
        a >> 32
    };
    let y: u64 = if n == 0 {
        b & 0xffff_ffff
    } else {
        b >> 32
    };
    assert(a & 0xffff_ffff == a % 0x1_0000_0000) by (bit_vector);
    assert(b & 0xffff_ffff == b % 0x1_0000_0000) by (bit_vector);
    assert(a >> 32 == a / 0x1_0000_0000) by (bit_vector);
    assert(b >> 32 == b / 0x1_0000_0000) by (bit_vector);
    assert(x * y <= 0xffff_ffff * 0xffff_ffff) by (nonlinear_arith)
        requires
            x <= 0xffff_ffff,
            y <= 0xffff_ffff,
    ;
    x * y
}

/// One accumulator lane of the inner product for one residue: sums the
/// products in chunks of sixteen and reduces at every chunk boundary.
fn lane_total(
    db: &[u64],
    v: &[u64],
    params: &Params,
    a_base: usize,
    b_base: usize,
    dim0: usize,
    lane: usize,
    n: usize,
) -> (acc: u64)
    requires
        params.wf(),
        params.crt_count == 2,
        lane < 4,
        n < 2,
        dim0 % 32 == 0,
        a_base + 2 * dim0 <= v@.len(),
        b_base + dim0 <= db@.len(),
        forall|j: int|
            a_base <= j < a_base + 2 * dim0 ==> packed_in_range(params, #[trigger] v@[j]),
        forall|j: int| b_base <= j < b_base + dim0 ==> packed_in_range(params, #[trigger] db@[j]),
    ensures
        acc as int == lane_sum(
            db@,
            v@,
            a_base as int,
            b_base as int,
            lane as int,
            n as int,
            (dim0 / 2) as int,
        ) % params.q(n as int),
{
    let chunks: usize = dim0 / 32;
    let v_len: usize = v.len();
    let db_len: usize = db.len();
    let ghost q: int = params.q(n as int);
    let mut acc: u64 = 0;
    let mut o: usize = 0;
    assert(0int % q == 0) by {
        lemma_small_mod(0, q as nat);
    }
    while o < chunks
        invariant
            params.wf(),
            params.crt_count == 2,
            lane < 4,
            n < 2,
            q == params.q(n as int),
            dim0 % 32 == 0,
            chunks == dim0 / 32,
            o <= chunks,
            v_len == v@.len(),
            db_len == db@.len(),
            a_base + 2 * dim0 <= v@.len(),
            b_base + dim0 <= db@.len(),
            forall|j: int|
                a_base <= j < a_base + 2 * dim0 ==> packed_in_range(params, #[trigger] v@[j]),
            forall|j: int|
                b_base <= j < b_base + dim0 ==> packed_in_range(params, #[trigger] db@[j]),
            (acc as int) < q,
            acc as int == lane_sum(
                db@,
                v@,
                a_base as int,
                b_base as int,
                lane as int,
                n as int,
                16 * o,
            ) % q,
        decreases chunks - o,
    {
        let mut s: u64 = 0;
        let mut t: usize = 0;
        proof {
            lemma_small_mod(acc as nat, q as nat);
        }
        while t < 16
            invariant
                params.wf(),
                params.crt_count == 2,
                lane < 4,
                n < 2,
                q == params.q(n as int),
                dim0 % 32 == 0,
                chunks == dim0 / 32,
                o < chunks,
                t <= 16,
                v_len == v@.len(),
                db_len == db@.len(),
                a_base + 2 * dim0 <= v@.len(),
                b_base + dim0 <= db@.len(),
                forall|j: int|
                    a_base <= j < a_base + 2 * dim0 ==> packed_in_range(params, #[trigger] v@[j]),
                forall|j: int|
                    b_base <= j < b_base + dim0 ==> packed_in_range(params, #[trigger] db@[j]),
                (acc as int) < q,
                s as int <= t * 0x400_0000_0000_0000,
                (s + acc) % q == lane_sum(
                    db@,
                    v@,
                    a_base as int,
                    b_base as int,
                    lane as int,
                    n as int,
                    16 * o + t,
                ) % q,
            decreases 16 - t,
        {
            assert(32 * chunks == dim0);
            let p: usize = o * 16 + t;
            assert(4 * p + lane < 2 * dim0 && 2 * p + lane / 2 < dim0);
            let a: u64 = v[a_base + 4 * p + lane];
            let b: u64 = db[b_base + 2 * p + lane / 2];
            let prod: u64 = packed_mul(a, b, n);
            proof {
                let x: int = packed_residue(a, n as int);
                let y: int = packed_residue(b, n as int);
                assert(packed_in_range(params, a));
                assert(packed_in_range(params, b));
                assert(0 <= x < 0x2000_0000 && 0 <= y < 0x2000_0000);
                assert(x * y < 0x400_0000_0000_0000) by (nonlinear_arith)
                    requires
                        0 <= x < 0x2000_0000,
                        0 <= y < 0x2000_0000,
                ;
                lemma_mod_add_congruent(
                    s + acc,
                    lane_sum(
                        db@,
                        v@,
                        a_base as int,
                        b_base as int,
                        lane as int,
                        n as int,
                        16 * o + t,
                    ),
                    prod as int,
                    q,
                );
            }
            s = s + prod;
            t += 1;
        }
        acc = barrett_coeff_u64(params, s + acc, n);
        o += 1;
    }
    let res: u64 = barrett_coeff_u64(params, acc, n);
    proof {
        lemma_small_mod(acc as nat, q as nat);
        assert(16 * chunks == dim0 / 2);
    }
    res
}

/// The four words of position `z` of output `i` hold the inner product.
pub open spec fn column_done(
    params: &Params,
    data: Seq<u64>,
    db: Seq<u64>,
    v: Seq<u64>,
    dim0: int,
    num_per: int,
    i: int,
    z: int,
) -> bool {
    let len: int = params.poly_len as int;
    &&& data[z] as int == first_dim_coeff(params, db, v, dim0, num_per, i, 0, 0, z)
    &&& data[len + z] as int == first_dim_coeff(params, db, v, dim0, num_per, i, 0, 1, z)
    &&& data[2 * len + z] as int == first_dim_coeff(params, db, v, dim0, num_per, i, 1, 0, z)
    &&& data[3 * len + z] as int == first_dim_coeff(params, db, v, dim0, num_per, i, 1, 1, z)
}

/// Where the words of a `2 x 1` ciphertext lie when there are two residues.
proof fn lemma_ct_index(params: &Params, row: int, n: int, z: int)
    requires
        params.crt_count == 2,
        0 <= row < 2,
        0 <= n < 2,
    ensures
        ntt_index(params, 1, row, 0, n, z) == (2 * row + n) * (params.poly_len as int) + z,
        row == 0 && n == 0 ==> ntt_index(params, 1, row, 0, n, z) == z,
        row == 0 && n == 1 ==> ntt_index(params, 1, row, 0, n, z) == params.poly_len + z,
        row == 1 && n == 0 ==> ntt_index(params, 1, row, 0, n, z) == 2 * params.poly_len + z,
        row == 1 && n == 1 ==> ntt_index(params, 1, row, 0, n, z) == 3 * params.poly_len + z,
{
    let len: int = params.poly_len as int;
    assert((row * 1 + 0) * params.num_words() + n * len == (2 * row + n) * len) by (nonlinear_arith)
        requires
            params.num_words() == 2 * len,
    ;
    if row == 0 && n == 0 {
        assert((2 * row + n) * len == 0) by (nonlinear_arith)
            requires row == 0, n == 0;
    } else if row == 0 && n == 1 {
        assert((2 * row + n) * len == len) by (nonlinear_arith)
            requires row == 0, n == 1;
    } else if row == 1 && n == 0 {
        assert((2 * row + n) * len == 2 * len) by (nonlinear_arith)
            requires row == 1, n == 0;
    } else {
        assert((2 * row + n) * len == 3 * len) by (nonlinear_arith)
            requires row == 1, n == 1;
    }
}

/// A well-formed `2 x 1` ciphertext over two residues has `4 * poly_len` words.
proof fn lemma_ct_len(params: &Params, m: &PolyMatrixNTT)
    requires
        params.crt_count == 2,
        m.is_shape(params, 2, 1),
    ensures
        m.data@.len() == 4 * params.poly_len,
{
    assert(m.rows * m.cols * params.num_words() == 4 * params.poly_len) by (nonlinear_arith)
        requires
            m.rows == 2,
            m.cols == 1,
            params.num_words() == 2 * params.poly_len,
    ;
}

/// The sum of two reduced lanes, reduced, is the reduced inner product.
proof fn lemma_combine_lanes(
    db: Seq<u64>,
    v: Seq<u64>,
    a_base: int,
    b_base: int,
    row: int,
    n: int,
    dim0: int,
    q: int,
    x: int,
    y: int,
)
    requires
        0 <= row < 2,
        0 <= dim0,
        dim0 % 2 == 0,
        q > 0,
        x == lane_sum(db, v, a_base, b_base, row, n, dim0 / 2) % q,
        y == lane_sum(db, v, a_base, b_base, row + 2, n, dim0 / 2) % q,
    ensures
        (x + y) % q == dot(db, v, a_base, b_base, row, n, dim0) % q,
{
    lemma_lanes_cover(db, v, a_base, b_base, row, n, dim0 / 2);
    lemma_add_mod_noop(
        lane_sum(db, v, a_base, b_base, row, n, dim0 / 2),
        lane_sum(db, v, a_base, b_base, row + 2, n, dim0 / 2),
        q,
    );
}

/// The first `num_per` matrices of `out` are the inner products of the
/// ciphertexts `v` with the columns of the database `db`: the word at row
/// `row`, residue `n`, position `z` of `out[i]` is `first_dim_coeff`.
pub open spec fn is_first_dim_product(
    params: &Params,
    out: Seq<PolyMatrixNTT>,
    db: Seq<u64>,
    v: Seq<u64>,
    dim0: int,
    num_per: int,
) -> bool {
    &&& num_per <= out.len()
    &&& forall|i: int| 0 <= i < num_per ==> (#[trigger] out[i]).is_shape(params, 2, 1)
    &&& forall|i: int, row: int, n: int, z: int|
        0 <= i < num_per && 0 <= row < 2 && 0 <= n < 2 && 0 <= z < params.poly_len ==> (
        #[trigger] out[i].data@[ntt_index(params, 1, row, 0, n, z)]) as int == first_dim_coeff(
            params,
            db,
            v,
            dim0,
            num_per,
            i,
            row,
            n,
            z,
        )
}

/// Every word of an inner product is determined and fully reduced.
proof fn lemma_first_dim_word(
    params: &Params,
    out: Seq<PolyMatrixNTT>,
    db: Seq<u64>,
    v: Seq<u64>,
    dim0: int,
    num_per: int,
    i: int,
    k: int,
)
    requires
        params.wf(),
        params.crt_count == 2,
        is_first_dim_product(params, out, db, v, dim0, num_per),
        0 <= i < num_per,
        0 <= k < out[i].data@.len(),
    ensures
        0 <= k / params.num_words() < 2,
        0 <= residue_of(params, k) < 2,
        0 <= position_of(params, k) < params.poly_len,
        out[i].data@[k] as int == first_dim_coeff(
            params,
            db,
            v,
            dim0,
            num_per,
            i,
            k / params.num_words(),
            residue_of(params, k),
            position_of(params, k),
        ),
        (out[i].data@[k] as int) < params.q(residue_of(params, k)),
{
    let m: PolyMatrixNTT = out[i];
    assert(m.is_shape(params, 2, 1));
    assert(m.rows * m.cols * params.num_words() == 2 * 1 * params.num_words())
        by (nonlinear_arith)
        requires
            m.rows == 2,
            m.cols == 1,
    ;
    lemma_ntt_coords(params, 2, 1, k);
    let row: int = k / params.num_words();
    let n: int = residue_of(params, k);
    let z: int = position_of(params, k);
    assert(row / 1 == row && row % 1 == 0);
    assert(m.data@[ntt_index(params, 1, row, 0, n, z)] as int == first_dim_coeff(
        params,
        db,
        v,
        dim0,
        num_per,
        i,
        row,
        n,
        z,
    ));
    lemma_mod_bound(
        dot(db, v, z * (dim0 * 2), z * (num_per * dim0) + i * dim0, row, n, dim0),
        params.q(n),
    );
}

/// The inner product is a function of its inputs: two results for the same
/// database, ciphertexts and sizes agree word for word, whatever produced
/// them.
pub proof fn lemma_first_dim_product_deterministic(
    params: &Params,
    out1: Seq<PolyMatrixNTT>,
    out2: Seq<PolyMatrixNTT>,
    db: Seq<u64>,
    v: Seq<u64>,
    dim0: int,
    num_per: int,
)
    requires
        params.wf(),
        params.crt_count == 2,
        is_first_dim_product(params, out1, db, v, dim0, num_per),
        is_first_dim_product(params, out2, db, v, dim0, num_per),
    ensures
        forall|i: int| 0 <= i < num_per ==> (#[trigger] out1[i]).data@ == out2[i].data@,
{
    assert forall|i: int| 0 <= i < num_per implies (#[trigger] out1[i]).data@ == out2[i].data@ by {
        assert(out1[i].is_shape(params, 2, 1));
        assert(out2[i].is_shape(params, 2, 1));
        assert forall|k: int| 0 <= k < out1[i].data@.len() implies out1[i].data@[k]
            == out2[i].data@[k] by {
            lemma_first_dim_word(params, out1, db, v, dim0, num_per, i, k);
            lemma_first_dim_word(params, out2, db, v, dim0, num_per, i, k);
        }
        assert(out1[i].data@ =~= out2[i].data@);
    }
}

/// The phase of ciphertext `k` at one position under the key residue `s`:
/// its second row minus `s` times its first row.
pub open spec fn phase(v: Seq<u64>, a_base: int, s: int, n: int, k: int) -> int {
    packed_residue(v[a_base + 2 * k + 1], n) - s * packed_residue(v[a_base + 2 * k], n)
}

/// Sum over the first `k` entries of the first dimension of the phase of
/// the ciphertext times the database entry.
pub open spec fn phase_sum(
    db: Seq<u64>,
    v: Seq<u64>,
    a_base: int,
    b_base: int,
    s: int,
    n: int,
    k: int,
) -> int
    decreases k,
{
    if k <= 0 {
        0
    } else {
        phase_sum(db, v, a_base, b_base, s, n, k - 1) + phase(v, a_base, s, n, k - 1)
            * packed_residue(db[b_base + (k - 1)], n)
    }
}

/// The phase of a sum of products is the sum of the phases times the
/// database entries.
proof fn lemma_phase_of_dot(
    db: Seq<u64>,
    v: Seq<u64>,
    a_base: int,
    b_base: int,
    s: int,
    n: int,
    k: int,
)
    requires
        0 <= k,
    ensures
        dot(db, v, a_base, b_base, 1, n, k) - s * dot(db, v, a_base, b_base, 0, n, k) == phase_sum(
            db,
            v,
            a_base,
            b_base,
            s,
            n,
            k,
        ),
    decreases k,
{
    if k > 0 {
        lemma_phase_of_dot(db, v, a_base, b_base, s, n, k - 1);
        let d: int = packed_residue(db[b_base + (k - 1)], n);
        let a: int = packed_residue(v[a_base + 2 * (k - 1) + 0], n);
        let b: int = packed_residue(v[a_base + 2 * (k - 1) + 1], n);
        let d1: int = dot(db, v, a_base, b_base, 1, n, k - 1);
        let d0: int = dot(db, v, a_base, b_base, 0, n, k - 1);
        assert((d1 + b * d) - s * (d0 + a * d) == (d1 - s * d0) + (b - s * a) * d)
            by (nonlinear_arith);
    }
}

/// Decryption commutes with the inner product. For every key residue `s`,
/// the phase of output `i` at residue `n` and position `z` is, modulo the
/// `n`-th modulus, the sum over the first dimension of the phases of the
/// query ciphertexts times the database entries: where only ciphertext `k`
/// has a phase other than zero, the output carries that phase times
/// database entry `(k, i)`.
pub proof fn lemma_first_dim_product_decrypts(
    params: &Params,
    db: Seq<u64>,
    v: Seq<u64>,
    dim0: int,
    num_per: int,
    i: int,
    n: int,
    z: int,
    s: int,
)
    requires
        params.wf(),
        params.crt_count == 2,
        0 <= n < 2,
        0 <= dim0,
    ensures
        (first_dim_coeff(params, db, v, dim0, num_per, i, 1, n, z) - s * first_dim_coeff(
            params,
            db,
            v,
            dim0,
            num_per,
            i,
            0,
            n,
            z,
        )) % params.q(n) == phase_sum(
            db,
            v,
            z * (dim0 * 2),
            z * (num_per * dim0) + i * dim0,
            s,
            n,
            dim0,
        ) % params.q(n),
{
    let q: int = params.q(n);
    let a_base: int = z * (dim0 * 2);
    let b_base: int = z * (num_per * dim0) + i * dim0;
    let d1: int = dot(db, v, a_base, b_base, 1, n, dim0);
    let d0: int = dot(db, v, a_base, b_base, 0, n, dim0);
    lemma_phase_of_dot(db, v, a_base, b_base, s, n, dim0);
    lemma_mul_mod_noop_right(s, d0, q);
    lemma_sub_mod_noop(d1, s * d0, q);
    lemma_sub_mod_noop(d1 % q, s * (d0 % q), q);
    lemma_mod_twice(d1, q);
}

/// Where only ciphertext `k0` has a phase other than zero modulo `q`, the sum
/// of the phases times the database entries is the phase at `k0` times its
/// database entry.
proof fn lemma_phase_sum_selects(
    db: Seq<u64>,
    v: Seq<u64>,
    a_base: int,
    b_base: int,
    s: int,
    n: int,
    q: int,
    k0: int,
    k: int,
)
    requires
        q > 0,
        0 <= k0,
        0 <= k,
        forall|j: int| 0 <= j < k && j != k0 ==> #[trigger] phase(v, a_base, s, n, j) % q == 0,
    ensures
        phase_sum(db, v, a_base, b_base, s, n, k) % q == (if k0 < k {
            phase(v, a_base, s, n, k0) * packed_residue(db[b_base + k0], n)
        } else {
            0
        }) % q,
    decreases k,
{
    if k > 0 {
        lemma_phase_sum_selects(db, v, a_base, b_base, s, n, q, k0, k - 1);
        let prev: int = phase_sum(db, v, a_base, b_base, s, n, k - 1);
        let p: int = phase(v, a_base, s, n, k - 1);
        let d: int = packed_residue(db[b_base + (k - 1)], n);
        lemma_small_mod(0, q as nat);
        if k - 1 == k0 {
            lemma_add_mod_noop(prev, p * d, q);
            lemma_add_mod_noop(0, p * d, q);
        } else {
            assert(p % q == 0);
            lemma_mul_mod_noop_left(p, d, q);
            assert(0 * d == 0);
            let chosen: int = if k0 < k - 1 {
                phase(v, a_base, s, n, k0) * packed_residue(db[b_base + k0], n)
            } else {
                0
            };
            lemma_add_mod_noop(prev, p * d, q);
            lemma_add_mod_noop(chosen, 0, q);
        }
    }
}

/// Selection by a one-hot query. Where, under the key residue `s`, every
/// query ciphertext but the one at `k0` has phase zero at residue `n` and
/// position `z`, the phase of output `i` there is the phase of ciphertext
/// `k0` times database entry `(k0, i)`, modulo the `n`-th modulus.
pub proof fn lemma_first_dim_product_selects(
    params: &Params,
    db: Seq<u64>,
    v: Seq<u64>,
    dim0: int,
    num_per: int,
    i: int,
    n: int,
    z: int,
    s: int,
    k0: int,
)
    requires
        params.wf(),
        params.crt_count == 2,
        0 <= n < 2,
        0 <= k0 < dim0,
        forall|k: int|
            0 <= k < dim0 && k != k0 ==> #[trigger] phase(v, z * (dim0 * 2), s, n, k) % params.q(n)
                == 0,
    ensures
        (first_dim_coeff(params, db, v, dim0, num_per, i, 1, n, z) - s * first_dim_coeff(
            params,
            db,
            v,
            dim0,
            num_per,
            i,
            0,
            n,
            z,
        )) % params.q(n) == (phase(v, z * (dim0 * 2), s, n, k0) * packed_residue(
            db[z * (num_per * dim0) + i * dim0 + k0],
            n,
        )) % params.q(n),
{
    lemma_first_dim_product_decrypts(params, db, v, dim0, num_per, i, n, z, s);
    lemma_phase_sum_selects(
        db,
        v,
        z * (dim0 * 2),
        z * (num_per * dim0) + i * dim0,
        s,
        n,
        params.q(n),
        k0,
        dim0,
    );
}

/// First-dimension inner product of the expanded query with the database.
///
/// `v_firstdim` holds `dim0` Regev ciphertexts and `db` holds
/// `dim0 * num_per` plaintext polynomials, both in transformed form with the
/// two residues of a coefficient packed into one word. For every position
/// `z`, the word of row `row` of ciphertext `k` is at
/// `z * (dim0 * 2) + 2 * k + row`, and the word of database entry `(k, i)`
/// is at `z * (num_per * dim0) + i * dim0 + k`.
///
/// Afterwards `out[i]`, for `i < num_per`, is the sum over `k` of
/// ciphertext `k` times database entry `(k, i)`, one word per residue, each
/// fully reduced. Products are summed in chunks of `MAX_SUMMED` operand
/// pairs with one reduction per chunk, so `dim0` must be a whole number of
/// half chunks, as every power of two from 32 on is, and every packed
/// residue must lie below twice its modulus.
pub fn multiply_reg_by_database(
    out: &mut Vec<PolyMatrixNTT>,
    db: &[u64],
    v_firstdim: &[u64],
    params: &Params,
    dim0: usize,
    num_per: usize,
)
    requires
        params.wf(),
        params.crt_count == 2,
        dim0 * 2 >= MAX_SUMMED,
        dim0 % 32 == 0,
        v_firstdim@.len() >= params.poly_len * (dim0 * 2),
        db@.len() >= params.poly_len * (num_per * dim0),
        old(out)@.len() >= num_per,
        forall|i: int| 0 <= i < num_per ==> (#[trigger] old(out)@[i]).is_shape(params, 2, 1),
        forall|j: int|
            0 <= j < params.poly_len * (dim0 * 2) ==> packed_in_range(
                params,
                #[trigger] v_firstdim@[j],
            ),
        forall|j: int|
            0 <= j < params.poly_len * (num_per * dim0) ==> packed_in_range(
                params,
                #[trigger] db@[j],
            ),
    ensures
        final(out)@.len() == old(out)@.len(),
        forall|i: int| num_per <= i < old(out)@.len() ==> final(out)@[i] == old(out)@[i],
        is_first_dim_product(params, final(out)@, db@, v_firstdim@, dim0 as int, num_per as int),
        forall|i: int| 0 <= i < num_per ==> (#[trigger] final(out)@[i]).in_range(params),
{
    let poly_len: usize = params.poly_len;
    let v_len: usize = v_firstdim.len();
    let db_len: usize = db.len();
    let ghost start: Seq<PolyMatrixNTT> = out@;
    let ghost d: int = dim0 as int;
    let ghost np: int = num_per as int;
    let ghost len: int = poly_len as int;
    assert(d * 2 <= len * (d * 2) && np * d <= len * (np * d)) by (nonlinear_arith)
        requires len >= 1, d >= 0, np >= 0;
    let a_stride: usize = dim0 * 2;
    let b_stride: usize = num_per * dim0;
    let mut z: usize = 0;
    while z < poly_len
        invariant
            params.wf(),
            params.crt_count == 2,
            poly_len == params.poly_len,
            d == dim0,
            np == num_per,
            len == poly_len,
            a_stride == d * 2,
            b_stride == np * d,
            dim0 % 32 == 0,
            v_len == v_firstdim@.len(),
            db_len == db@.len(),
            v_firstdim@.len() >= len * (d * 2),
            db@.len() >= len * (np * d),
            forall|j: int|
                0 <= j < len * (d * 2) ==> packed_in_range(params, #[trigger] v_firstdim@[j]),
            forall|j: int| 0 <= j < len * (np * d) ==> packed_in_range(params, #[trigger] db@[j]),
            z <= poly_len,
            out@.len() == start.len(),
            start.len() >= num_per,
            forall|i: int| num_per <= i < start.len() ==> out@[i] == start[i],
            forall|i: int| 0 <= i < num_per ==> (#[trigger] out@[i]).is_shape(params, 2, 1),
            forall|i: int, zz: int|
                0 <= i < num_per && 0 <= zz < z ==> #[trigger] column_done(
                    params,
                    out@[i].data@,
                    db@,
                    v_firstdim@,
                    d,
                    np,
                    i,
                    zz,
                ),
        decreases poly_len - z,
    {
        assert(z * (d * 2) + d * 2 <= len * (d * 2) && z * (np * d) + np * d <= len * (np * d))
            by (nonlinear_arith)
            requires 0 <= z < len, d >= 0, np >= 0;
        let idx_a_base: usize = z * a_stride;
        let idx_b_row: usize = z * b_stride;
        let mut i: usize = 0;
        while i < num_per
            invariant
                params.wf(),
                params.crt_count == 2,
                poly_len == params.poly_len,
                d == dim0,
                np == num_per,
                len == poly_len,
                a_stride == d * 2,
                b_stride == np * d,
                dim0 % 32 == 0,
                v_len == v_firstdim@.len(),
                db_len == db@.len(),
                v_firstdim@.len() >= len * (d * 2),
                db@.len() >= len * (np * d),
                forall|j: int|
                    0 <= j < len * (d * 2) ==> packed_in_range(params, #[trigger] v_firstdim@[j]),
                forall|j: int|
                    0 <= j < len * (np * d) ==> packed_in_range(params, #[trigger] db@[j]),
                z < poly_len,
                idx_a_base == z * (d * 2),
                idx_b_row == z * (np * d),
                z * (d * 2) + d * 2 <= len * (d * 2),
                z * (np * d) + np * d <= len * (np * d),
                i <= num_per,
                out@.len() == start.len(),
                start.len() >= num_per,
                forall|i: int| num_per <= i < start.len() ==> out@[i] == start[i],
                forall|i: int| 0 <= i < num_per ==> (#[trigger] out@[i]).is_shape(params, 2, 1),
                forall|ii: int, zz: int|
                    0 <= ii < num_per && 0 <= zz < z ==> #[trigger] column_done(
                        params,
                        out@[ii].data@,
                        db@,
                        v_firstdim@,
                        d,
                        np,
                        ii,
                        zz,
                    ),
                forall|ii: int|
                    0 <= ii < i ==> #[trigger] column_done(
                        params,
                        out@[ii].data@,
                        db@,
                        v_firstdim@,
                        d,
                        np,
                        ii,
                        z as int,
                    ),
            decreases num_per - i,
        {
            assert(i * d + d <= np * d) by (nonlinear_arith)
                requires 0 <= i < np, d >= 0;
            let idx_b_base: usize = idx_b_row + i * dim0;
            let n0_0: u64 = lane_total(db, v_firstdim, params, idx_a_base, idx_b_base, dim0, 0, 0);
            let n0_1: u64 = lane_total(db, v_firstdim, params, idx_a_base, idx_b_base, dim0, 1, 0);
            let n0_2: u64 = lane_total(db, v_firstdim, params, idx_a_base, idx_b_base, dim0, 2, 0);
            let n0_3: u64 = lane_total(db, v_firstdim, params, idx_a_base, idx_b_base, dim0, 3, 0);
            let n1_0: u64 = lane_total(db, v_firstdim, params, idx_a_base, idx_b_base, dim0, 0, 1);
            let n1_1: u64 = lane_total(db, v_firstdim, params, idx_a_base, idx_b_base, dim0, 1, 1);
            let n1_2: u64 = lane_total(db, v_firstdim, params, idx_a_base, idx_b_base, dim0, 2, 1);
            let n1_3: u64 = lane_total(db, v_firstdim, params, idx_a_base, idx_b_base, dim0, 3, 1);
            let w00: u64 = barrett_coeff_u64(params, n0_0 + n0_2, 0);
            let w10: u64 = barrett_coeff_u64(params, n0_1 + n0_3, 0);
            let w01: u64 = barrett_coeff_u64(params, n1_0 + n1_2, 1);
            let w11: u64 = barrett_coeff_u64(params, n1_1 + n1_3, 1);
            proof {
                let a: int = idx_a_base as int;
                let b: int = idx_b_base as int;
                lemma_combine_lanes(
                    db@,
                    v_firstdim@,
                    a,
                    b,
                    0,
                    0,
                    d,
                    params.q(0),
                    n0_0 as int,
                    n0_2 as int,
                );
                lemma_combine_lanes(
                    db@,
                    v_firstdim@,
                    a,
                    b,
                    1,
                    0,
                    d,
                    params.q(0),
                    n0_1 as int,
                    n0_3 as int,
                );
                lemma_combine_lanes(
                    db@,
                    v_firstdim@,
                    a,
                    b,
                    0,
                    1,
                    d,
                    params.q(1),
                    n1_0 as int,
                    n1_2 as int,
                );
                lemma_combine_lanes(
                    db@,
                    v_firstdim@,
                    a,
                    b,
                    1,
                    1,
                    d,
                    params.q(1),
                    n1_1 as int,
                    n1_3 as int,
                );
                lemma_ct_len(params, &out@[i as int]);
            }
            let width: usize = out[i].data.len();
            assert(width == 4 * poly_len);
            let ghost before: Seq<PolyMatrixNTT> = out@;
            out[i].data[z] = w00;
            out[i].data[2 * poly_len + z] = w10;
            out[i].data[poly_len + z] = w01;
            out[i].data[3 * poly_len + z] = w11;
            proof {
                assert forall|ii: int, zz: int|
                    0 <= ii < num_per && 0 <= zz < z implies #[trigger] column_done(
                    params,
                    out@[ii].data@,
                    db@,
                    v_firstdim@,
                    d,
                    np,
                    ii,
                    zz,
                ) by {
                    assert(column_done(params, before[ii].data@, db@, v_firstdim@, d, np, ii, zz));
                }
                assert forall|ii: int| 0 <= ii < i + 1 implies #[trigger] column_done(
                    params,
                    out@[ii].data@,
                    db@,
                    v_firstdim@,
                    d,
                    np,
                    ii,
                    z as int,
                ) by {
                    if ii < i {
                        assert(column_done(
                            params,
                            before[ii].data@,
                            db@,
                            v_firstdim@,
                            d,
                            np,
                            ii,
                            z as int,
                        ));
                    }
                }
            }
            i += 1;
        }
        z += 1;
    }
    proof {
        assert forall|i: int, row: int, n: int, z: int|
            0 <= i < num_per && 0 <= row < 2 && 0 <= n < 2 && 0 <= z < params.poly_len implies (
        #[trigger] out@[i].data@[ntt_index(params, 1, row, 0, n, z)]) as int == first_dim_coeff(
            params,
            db@,
            v_firstdim@,
            dim0 as int,
            num_per as int,
            i,
            row,
            n,
            z,
        ) by {
            lemma_ct_index(params, row, n, z);
            assert(column_done(params, out@[i].data@, db@, v_firstdim@, d, np, i, z));
        }
        assert(is_first_dim_product(params, out@, db@, v_firstdim@, d, np));
        assert forall|i: int| 0 <= i < num_per implies (#[trigger] out@[i]).in_range(params) by {
            assert forall|k: int| 0 <= k < out@[i].data@.len() implies (
            #[trigger] out@[i].data@[k] as int) < 2 * params.q(residue_of(params, k)) by {
                lemma_first_dim_word(params, out@, db@, v_firstdim@, d, np, i, k);
            }
        }
    }
}

/// The data of every matrix of a vector.
pub open spec fn ct_views(v: Seq<PolyMatrixNTT>) -> Seq<Seq<u64>> {
    Seq::new(v.len(), |k: int| v[k].data@)
}

/// Whether round `r` of the expansion leaves position `i` alone: odd
/// positions after the stop round, and in the stop round every position
/// whose half is not below `max_bits_to_gen_right`.
pub open spec fn skipped(stopround: int, max_bits_to_gen_right: int, r: int, i: int) -> bool {
    (stopround > 0 && i % 2 == 1 && r > stopround) || (r == stopround && i / 2
        >= max_bits_to_gen_right)
}

/// Word `idx` of a ciphertext to which a key-switched ciphertext was added:
/// the sum of the old word, the word of `w_times`, and in the second row the
/// word of `row1`, reduced.
pub open spec fn expand_word(
    params: &Params,
    ct: Seq<u64>,
    w_times: Seq<u64>,
    row1: Seq<u64>,
    idx: int,
) -> u64 {
    (((ct[idx] as int) + (w_times[idx] as int) + (idx / params.num_words()) * (row1[idx
        % params.num_words()] as int)) % params.q(residue_of(params, idx))) as u64
}

/// A ciphertext to which a key-switched ciphertext was added.
pub open spec fn expand_sum(
    params: &Params,
    ct: Seq<u64>,
    w_times: Seq<u64>,
    row1: Seq<u64>,
) -> Seq<u64> {
    Seq::new(ct.len(), |idx: int| expand_word(params, ct, w_times, row1, idx))
}

/// One expansion of a ciphertext: the ciphertext plus its image under
/// `x -> x^t`, switched back to the key of the ciphertext with the `2 x dim` key `w`.
/// The first row of the image is decomposed and multiplied by the key; the
/// second row is added to the second row of the result.
pub open spec fn expand_ct(params: &Params, ct: Seq<u64>, w: Seq<u64>, dim: int, t: int) -> Seq<
    u64,
> {
    let len: int = params.poly_len as int;
    let image: Seq<u64> = automorph_data(params, from_ntt_data(params, ct), t);
    let digits: Seq<u64> = to_ntt_data(params, gadget_data(params, image, dim, 1, 1));
    let row1: Seq<u64> = to_ntt_data(params, image.subrange(len, 2 * len));
    expand_sum(params, ct, multiply_data(params, w, 2, dim, digits, 1), row1)
}

/// What round `r` does at position `i`: below `2^r` it first puts the
/// ciphertext times `neg1` at position `2^r + i`; then it expands the
/// ciphertext at `i`, with the left key at even and the right key at odd
/// positions.
pub open spec fn expansion_step(
    params: &Params,
    cts: Seq<Seq<u64>>,
    r: int,
    i: int,
    w_left: Seq<u64>,
    w_right: Seq<u64>,
    neg1: Seq<u64>,
) -> Seq<Seq<u64>> {
    let num_in: int = pow2(r as nat) as int;
    let t: int = (params.poly_len as int) / num_in + 1;
    let spread: Seq<Seq<u64>> = if i < num_in {
        cts.update(num_in + i, scalar_multiply_data(params, neg1, cts[i]))
    } else {
        cts
    };
    if i % 2 == 0 {
        spread.update(i, expand_ct(params, spread[i], w_left, params.t_exp_left as int, t))
    } else {
        spread.update(i, expand_ct(params, spread[i], w_right, params.t_exp_right as int, t))
    }
}

/// The vector after round `r` has dealt with the positions below `i`.
pub open spec fn expansion_round(
    params: &Params,
    cts: Seq<Seq<u64>>,
    r: int,
    stopround: int,
    max_bits_to_gen_right: int,
    w_left: Seq<u64>,
    w_right: Seq<u64>,
    neg1: Seq<u64>,
    i: int,
) -> Seq<Seq<u64>>
    decreases i,
{
    if i <= 0 {
        cts
    } else {
        let prev: Seq<Seq<u64>> = expansion_round(
            params,
            cts,
            r,
            stopround,
            max_bits_to_gen_right,
            w_left,
            w_right,
            neg1,
            i - 1,
        );
        if skipped(stopround, max_bits_to_gen_right, r, i - 1) {
            prev
        } else {
            expansion_step(params, prev, r, i - 1, w_left, w_right, neg1)
        }
    }
}

/// The vector after the first `g` rounds; round `r` visits the positions
/// below `2^(r+1)` in order.
pub open spec fn expansion(
    params: &Params,
    cts: Seq<Seq<u64>>,
    g: int,
    stopround: int,
    max_bits_to_gen_right: int,
    v_w_left: Seq<PolyMatrixNTT>,
    v_w_right: Seq<PolyMatrixNTT>,
    v_neg1: Seq<PolyMatrixNTT>,
) -> Seq<Seq<u64>>
    decreases g,
{
    if g <= 0 {
        cts
    } else {
        expansion_round(
            params,
            expansion(
                params,
                cts,
                g - 1,
                stopround,
                max_bits_to_gen_right,
                v_w_left,
                v_w_right,
                v_neg1,
            ),
            g - 1,
            stopround,
            max_bits_to_gen_right,
            v_w_left[g - 1].data@,
            v_w_right[g - 1].data@,
            v_neg1[g - 1].data@,
            pow2(g as nat) as int,
        )
    }
}

/// The key-switching identity of one expansion. For every key residue `s`,
/// the phase of the expanded ciphertext is, modulo the modulus of the
/// residue, the phase of the ciphertext, plus the second row of its image
/// under `x -> x^t`, plus the sum over the digits of the first row of the
/// image of the phase of the key column times the digit.
pub proof fn lemma_expand_phase(
    params: &Params,
    ct: Seq<u64>,
    w: Seq<u64>,
    dim: int,
    t: int,
    s: int,
    n: int,
    z: int,
)
    requires
        params.wf(),
        ct.len() == 2 * params.num_words(),
        0 <= dim,
        0 <= n < params.crt_count,
        0 <= z < params.poly_len,
    ensures
        ({
            let len: int = params.poly_len as int;
            let image: Seq<u64> = automorph_data(params, from_ntt_data(params, ct), t);
            let digits: Seq<u64> = to_ntt_data(params, gadget_data(params, image, dim, 1, 1));
            let row1: Seq<u64> = to_ntt_data(params, image.subrange(len, 2 * len));
            column_phase(params, expand_ct(params, ct, w, dim, t), 1, 0, s, n, z) % params.q(n) == (
            column_phase(params, ct, 1, 0, s, n, z) + (row1[n * len + z] as int) + phase_product(
                params,
                w,
                dim,
                digits,
                1,
                0,
                s,
                n,
                z,
                dim,
            )) % params.q(n)
        }),
{
    let q: int = params.q(n);
    let len: int = params.poly_len as int;
    let words: int = params.num_words();
    let image: Seq<u64> = automorph_data(params, from_ntt_data(params, ct), t);
    let digits: Seq<u64> = to_ntt_data(params, gadget_data(params, image, dim, 1, 1));
    let row1: Seq<u64> = to_ntt_data(params, image.subrange(len, 2 * len));
    let wt: Seq<u64> = multiply_data(params, w, 2, dim, digits, 1);
    let new: Seq<u64> = expand_ct(params, ct, w, dim, t);
    let i1: int = ntt_index(params, 1, 1, 0, n, z);
    let i0: int = ntt_index(params, 1, 0, 0, n, z);
    lemma_ntt_index(params, 2, 1, 1, 0, n, z);
    lemma_ntt_index(params, 2, 1, 0, 0, n, z);
    assert(2 * 1 * words == 2 * words) by (nonlinear_arith);
    assert(i1 / words == 1 && i0 / words == 0);
    let c1: int = ct[i1] as int;
    let c0: int = ct[i0] as int;
    let w1: int = wt[i1] as int;
    let w0: int = wt[i0] as int;
    let r: int = row1[n * len + z] as int;
    let e1: int = c1 + w1 + 1 * r;
    let e0: int = c0 + w0 + 0 * (row1[i0 % words] as int);
    lemma_mod_bound(e1, q);
    lemma_mod_bound(e0, q);
    assert(new[i1] == expand_word(params, ct, wt, row1, i1));
    assert(new[i0] == expand_word(params, ct, wt, row1, i0));
    assert(new[i1] as int == e1 % q);
    assert(new[i0] as int == e0 % q);
    // reduce the phase of the new ciphertext to the unreduced sums
    lemma_mul_mod_noop_right(s, e0, q);
    lemma_sub_mod_noop(e1, s * e0, q);
    lemma_sub_mod_noop(e1 % q, s * (e0 % q), q);
    lemma_mod_twice(e1, q);
    // the part that comes from the key
    lemma_product_phase(params, w, dim, digits, 1, 0, s, n, z);
    let key_part: int = phase_product(params, w, dim, digits, 1, 0, s, n, z, dim);
    assert((w1 - s * w0) % q == key_part % q);
    let rest: int = (c1 - s * c0) + r;
    assert(e1 - s * e0 == rest + (w1 - s * w0)) by (nonlinear_arith)
        requires
            e1 == c1 + w1 + 1 * r,
            e0 == c0 + w0 + 0 * (row1[i0 % words] as int),
            rest == (c1 - s * c0) + r,
    ;
    lemma_add_mod_noop(rest, w1 - s * w0, q);
    lemma_add_mod_noop(rest, key_part, q);
}

/// Makes `dst` the second row of the ciphertext `src`.
fn second_row(params: &Params, dst: &mut PolyMatrixRaw, src: &PolyMatrixRaw)
    requires
        params.wf(),
        old(dst).is_shape(params, 1, 1),
        src.is_shape(params, 2, 1),
    ensures
        final(dst).is_shape(params, 1, 1),
        final(dst).data@ == src.data@.subrange(params.poly_len as int, 2 * params.poly_len),
{
    proof {
        let len: int = params.poly_len as int;
        assert((1 * 1 + 0) * len + 0 == len) by (nonlinear_arith);
    }
    dst.copy_poly(params, src, 1, 0);
}

/// Adds to the ciphertext `ct` the key-switched ciphertext whose key part is
/// `w_times` and whose second row is `row1`.
fn expand_update(
    params: &Params,
    ct: &mut PolyMatrixNTT,
    w_times: &PolyMatrixNTT,
    row1: &PolyMatrixNTT,
)
    requires
        params.wf(),
        old(ct).is_shape(params, 2, 1),
        w_times.is_shape(params, 2, 1),
        row1.is_shape(params, 1, 1),
    ensures
        final(ct).is_shape(params, 2, 1),
        final(ct).data@ == expand_sum(params, old(ct).data@, w_times.data@, row1.data@),
        final(ct).in_range(params),
{
    let words: usize = params.words();
    let total: usize = ct.data.len();
    let w_len: usize = w_times.data.len();
    let r_len: usize = row1.data.len();
    let ghost before: Seq<u64> = ct.data@;
    proof {
        let w: int = params.num_words();
        assert(2 * 1 * w == 2 * w && 1 * 1 * w == w) by (nonlinear_arith);
    }
    let mut idx: usize = 0;
    while idx < total
        invariant
            params.wf(),
            words == params.num_words(),
            ct.rows == 2,
            ct.cols == 1,
            total == ct.data@.len(),
            total == 2 * words,
            w_len == total,
            w_len == w_times.data@.len(),
            r_len == words,
            r_len == row1.data@.len(),
            before.len() == total,
            idx <= total,
            forall|k: int|
                0 <= k < idx ==> ct.data@[k] == expand_word(
                    params,
                    before,
                    w_times.data@,
                    row1.data@,
                    k,
                ),
            forall|k: int|
                0 <= k < idx ==> (#[trigger] ct.data@[k] as int) < params.q(residue_of(params, k)),
            forall|k: int| idx <= k < total ==> ct.data@[k] == before[k],
        decreases total - idx,
    {
        let coords: (usize, usize, usize) = ntt_coords(params, idx);
        let n: usize = coords.1;
        let j: usize = idx / words;
        proof {
            lemma_div_lt(idx as int, 2, words as int);
            lemma_mod_bound(idx as int, words as int);
        }
        let x: u64 = ct.data[idx];
        let y: u64 = w_times.data[idx];
        let u: u64 = row1.data[idx % words];
        let a: u64 = barrett_coeff_u64(params, x, n);
        let b: u64 = barrett_coeff_u64(params, y, n);
        let c: u64 = if j == 0 {
            0
        } else {
            barrett_coeff_u64(params, u, n)
        };
        proof {
            let q: int = params.q(n as int);
            let third: int = (j as int) * (u as int);
            assert(third == if j == 0 { 0 } else { u as int }) by (nonlinear_arith)
                requires
                    third == (j as int) * (u as int),
                    j == 0 || j == 1,
            ;
            lemma_small_mod(0, q as nat);
            lemma_add3_mod(x as int, y as int, third, q);
        }
        let val: u64 = barrett_coeff_u64(params, a + b + c, n);
        ct.data[idx] = val;
        idx += 1;
    }
    assert(ct.data@ =~= expand_sum(params, before, w_times.data@, row1.data@));
}

/// Expands the query ciphertext `v[0]` into `2^g` ciphertexts, one per
/// coefficient of its plaintext.
///
/// Round `r` visits the positions below `2^(r+1)` in order and, where the
/// stop rule does not skip the position, does there what `expansion_step`
/// says. Every ciphertext that a round writes is fully reduced.
pub fn coefficient_expansion(
    v: &mut Vec<PolyMatrixNTT>,
    g: usize,
    stopround: usize,
    params: &Params,
    v_w_left: &Vec<PolyMatrixNTT>,
    v_w_right: &Vec<PolyMatrixNTT>,
    v_neg1: &Vec<PolyMatrixNTT>,
    max_bits_to_gen_right: usize,
)
    requires
        params.wf(),
        pow2(g as nat) <= old(v)@.len(),
        g <= v_w_left@.len(),
        g <= v_w_right@.len(),
        g <= v_neg1@.len(),
        forall|k: int| 0 <= k < pow2(g as nat) ==> (#[trigger] old(v)@[k]).is_shape(params, 2, 1),
        forall|r: int|
            0 <= r < g ==> (#[trigger] v_w_left@[r]).is_shape(params, 2, params.t_exp_left as int),
        forall|r: int|
            0 <= r < g ==> (#[trigger] v_w_right@[r]).is_shape(
                params,
                2,
                params.t_exp_right as int,
            ),
        forall|r: int| 0 <= r < g ==> (#[trigger] v_neg1@[r]).is_shape(params, 1, 1),
    ensures
        final(v)@.len() == old(v)@.len(),
        forall|k: int|
            0 <= k < old(v)@.len() ==> (#[trigger] final(v)@[k]).rows == old(v)@[k].rows
                && final(v)@[k].cols == old(v)@[k].cols,
        forall|k: int| 0 <= k < pow2(g as nat) ==> (#[trigger] final(v)@[k]).is_shape(params, 2, 1),
        ct_views(final(v)@) == expansion(
            params,
            ct_views(old(v)@),
            g as int,
            stopround as int,
            max_bits_to_gen_right as int,
            v_w_left@,
            v_w_right@,
            v_neg1@,
        ),
        forall|k: int|
            0 <= k < old(v)@.len() && old(v)@[k].in_range(params)
                ==> (#[trigger] final(v)@[k]).in_range(params),
{
    let ghost start: Seq<PolyMatrixNTT> = v@;
    let v_len: usize = v.len();
    if g == 0 {
        return ;
    }
    let poly_len: usize = params.poly_len;
    let words: usize = params.words();
    let t_left: usize = params.t_exp_left;
    let t_right: usize = params.t_exp_right;
    let left_len: usize = v_w_left[0].data.len();
    let right_len: usize = v_w_right[0].data.len();
    proof {
        let w: int = words as int;
        let len: int = poly_len as int;
        assert(t_left * 1 * w <= 2 * t_left * w && t_left * 1 * len <= 2 * t_left * w && t_right
            * 1 * w <= 2 * t_right * w && t_right * 1 * len <= 2 * t_right * w)
            by (nonlinear_arith)
            requires
                0 <= len <= w,
        ;
        assert(2 * 1 * len <= 0x4000_0000 && 1 * 1 * len <= 0x4000_0000 && 2 * 1 * w
            <= 0x4000_0000 && 1 * 1 * w <= 0x4000_0000) by (nonlinear_arith)
            requires
                0 <= len <= w,
                w <= 0x2000_0000,
        ;
    }
    let mut ct: PolyMatrixRaw = PolyMatrixRaw::zero(params, 2, 1);
    let mut ct_auto: PolyMatrixRaw = PolyMatrixRaw::zero(params, 2, 1);
    let mut ct_auto_1: PolyMatrixRaw = PolyMatrixRaw::zero(params, 1, 1);
    let mut ct_auto_1_ntt: PolyMatrixNTT = PolyMatrixNTT::zero(params, 1, 1);
    let mut ginv_ct_left: PolyMatrixRaw = PolyMatrixRaw::zero(params, t_left, 1);
    let mut ginv_ct_left_ntt: PolyMatrixNTT = PolyMatrixNTT::zero(params, t_left, 1);
    let mut ginv_ct_right: PolyMatrixRaw = PolyMatrixRaw::zero(params, t_right, 1);
    let mut ginv_ct_right_ntt: PolyMatrixNTT = PolyMatrixNTT::zero(params, t_right, 1);
    let mut w_times_ginv_ct: PolyMatrixNTT = PolyMatrixNTT::zero(params, 2, 1);
    let mut spare: PolyMatrixNTT = PolyMatrixNTT::zero(params, 2, 1);

    let mut r: usize = 0;
    let mut num_in: usize = 1;
    proof {
        lemma2_to64();
    }
    while r < g
        invariant
            params.wf(),
            poly_len == params.poly_len,
            t_left == params.t_exp_left,
            t_right == params.t_exp_right,
            pow2(g as nat) <= start.len(),
            g <= v_w_left@.len(),
            g <= v_w_right@.len(),
            g <= v_neg1@.len(),
            forall|r: int|
                0 <= r < g ==> (#[trigger] v_w_left@[r]).is_shape(
                    params,
                    2,
                    params.t_exp_left as int,
                ),
            forall|r: int|
                0 <= r < g ==> (#[trigger] v_w_right@[r]).is_shape(
                    params,
                    2,
                    params.t_exp_right as int,
                ),
            forall|r: int| 0 <= r < g ==> (#[trigger] v_neg1@[r]).is_shape(params, 1, 1),
            ct.is_shape(params, 2, 1),
            ct_auto.is_shape(params, 2, 1),
            ct_auto_1.is_shape(params, 1, 1),
            ct_auto_1_ntt.is_shape(params, 1, 1),
            ginv_ct_left.is_shape(params, t_left as int, 1),
            ginv_ct_left_ntt.is_shape(params, t_left as int, 1),
            ginv_ct_right.is_shape(params, t_right as int, 1),
            ginv_ct_right_ntt.is_shape(params, t_right as int, 1),
            w_times_ginv_ct.is_shape(params, 2, 1),
            spare.is_shape(params, 2, 1),
            r <= g,
            num_in == pow2(r as nat),
            v_len == start.len(),
            v@.len() == start.len(),
            forall|k: int| 0 <= k < pow2(g as nat) ==> (#[trigger] v@[k]).is_shape(params, 2, 1),
            forall|k: int|
                0 <= k < start.len() ==> (#[trigger] v@[k]).rows == start[k].rows && v@[k].cols
                    == start[k].cols,
            forall|k: int|
                0 <= k < start.len() && start[k].in_range(params) ==> (#[trigger] v@[k]).in_range(
                    params,
                ),
            ct_views(v@) == expansion(
                params,
                ct_views(start),
                r as int,
                stopround as int,
                max_bits_to_gen_right as int,
                v_w_left@,
                v_w_right@,
                v_neg1@,
            ),
        decreases g - r,
    {
        proof {
            lemma_pow2_unfold((r + 1) as nat);
            if r + 1 < g {
                lemma_pow2_strictly_increases((r + 1) as nat, g as nat);
            }
            lemma_pow2_pos(r as nat);
        }
        let num_out: usize = 2 * num_in;
        let t: usize = poly_len / num_in + 1;
        let ghost round_start: Seq<Seq<u64>> = ct_views(v@);
        let ghost wl: Seq<u64> = v_w_left@[r as int].data@;
        let ghost wr: Seq<u64> = v_w_right@[r as int].data@;
        let ghost ng: Seq<u64> = v_neg1@[r as int].data@;
        let mut i: usize = 0;
        while i < num_out
            invariant
                params.wf(),
                poly_len == params.poly_len,
                t_left == params.t_exp_left,
                t_right == params.t_exp_right,
                pow2(g as nat) <= start.len(),
                r < g,
                g <= v_w_left@.len(),
                g <= v_w_right@.len(),
                g <= v_neg1@.len(),
                v_w_left@[r as int].is_shape(params, 2, params.t_exp_left as int),
                v_w_right@[r as int].is_shape(params, 2, params.t_exp_right as int),
                v_neg1@[r as int].is_shape(params, 1, 1),
                wl == v_w_left@[r as int].data@,
                wr == v_w_right@[r as int].data@,
                ng == v_neg1@[r as int].data@,
                ct.is_shape(params, 2, 1),
                ct_auto.is_shape(params, 2, 1),
                ct_auto_1.is_shape(params, 1, 1),
                ct_auto_1_ntt.is_shape(params, 1, 1),
                ginv_ct_left.is_shape(params, t_left as int, 1),
                ginv_ct_left_ntt.is_shape(params, t_left as int, 1),
                ginv_ct_right.is_shape(params, t_right as int, 1),
                ginv_ct_right_ntt.is_shape(params, t_right as int, 1),
                w_times_ginv_ct.is_shape(params, 2, 1),
                spare.is_shape(params, 2, 1),
                num_in == pow2(r as nat),
                num_in >= 1,
                num_out == 2 * num_in,
                num_out <= pow2(g as nat),
                t == poly_len / num_in + 1,
                i <= num_out,
                v@.len() == start.len(),
                forall|k: int|
                    0 <= k < pow2(g as nat) ==> (#[trigger] v@[k]).is_shape(params, 2, 1),
                forall|k: int|
                    0 <= k < start.len() ==> (#[trigger] v@[k]).rows == start[k].rows
                        && v@[k].cols == start[k].cols,
                forall|k: int|
                    0 <= k < start.len() && start[k].in_range(params) ==> (#[trigger] v@[
                        k
                    ]).in_range(params),
                ct_views(v@) == expansion_round(
                    params,
                    round_start,
                    r as int,
                    stopround as int,
                    max_bits_to_gen_right as int,
                    wl,
                    wr,
                    ng,
                    i as int,
                ),
            decreases num_out - i,
        {
            let skip: bool = (stopround > 0 && i % 2 == 1 && r > stopround) || (r == stopround
                && i / 2 >= max_bits_to_gen_right);
            if !skip {
                let ghost prev: Seq<Seq<u64>> = ct_views(v@);
                if i < num_in {
                    scalar_multiply(params, &mut spare, &v_neg1[r], &v[i]);
                    core::mem::swap(&mut v[num_in + i], &mut spare);
                }
                let ghost spread: Seq<Seq<u64>> = ct_views(v@);
                proof {
                    if i < num_in {
                        assert(spread =~= prev.update(
                            num_in + i,
                            scalar_multiply_data(params, ng, prev[i as int]),
                        ));
                    }
                }
                from_ntt(params, &mut ct, &v[i]);
                automorph(params, &mut ct_auto, &ct, t);
                if i % 2 == 0 {
                    gadget_invert_rdim(params, &mut ginv_ct_left, &ct_auto, 1);
                    to_ntt_no_reduce(params, &mut ginv_ct_left_ntt, &ginv_ct_left);
                    multiply(params, &mut w_times_ginv_ct, &v_w_left[r], &ginv_ct_left_ntt);
                } else {
                    gadget_invert_rdim(params, &mut ginv_ct_right, &ct_auto, 1);
                    to_ntt_no_reduce(params, &mut ginv_ct_right_ntt, &ginv_ct_right);
                    multiply(params, &mut w_times_ginv_ct, &v_w_right[r], &ginv_ct_right_ntt);
                }
                second_row(params, &mut ct_auto_1, &ct_auto);
                to_ntt(params, &mut ct_auto_1_ntt, &ct_auto_1);
                expand_update(params, &mut v[i], &w_times_ginv_ct, &ct_auto_1_ntt);
                proof {
                    let dim: int = if i % 2 == 0 {
                        t_left as int
                    } else {
                        t_right as int
                    };
                    let key: Seq<u64> = if i % 2 == 0 {
                        wl
                    } else {
                        wr
                    };
                    assert(v@[i as int].data@ == expand_ct(
                        params,
                        spread[i as int],
                        key,
                        dim,
                        t as int,
                    ));
                    assert(ct_views(v@) =~= spread.update(
                        i as int,
                        expand_ct(params, spread[i as int], key, dim, t as int),
                    ));
                }
            }
            i += 1;
        }
        num_in = num_out;
        r += 1;
    }
}

/// Column `c` of the two-row matrix `g` with `cols` columns is the
/// ciphertext `src`.
pub open spec fn column_is(params: &Params, g: Seq<u64>, cols: int, c: int, src: Seq<u64>) -> bool {
    forall|row: int, n: int, z: int|
        0 <= row < 2 && 0 <= n < params.crt_count && 0 <= z < params.poly_len ==> #[trigger] g[ntt_index(
            params,
            cols,
            row,
            c,
            n,
            z,
        )] == src[ntt_index(params, 1, row, 0, n, z)]
}

/// The conversion key `key`, a `2 x 2 * t_conv` matrix, times the full
/// decomposition of the ciphertext `inp`.
pub open spec fn conversion_product(params: &Params, key: Seq<u64>, inp: Seq<u64>) -> Seq<u64> {
    multiply_data(
        params,
        key,
        2,
        2 * params.t_conv,
        to_ntt_data(
            params,
            gadget_data(params, from_ntt_data(params, inp), 2 * params.t_conv, 1, 2),
        ),
        1,
    )
}

/// The input ciphertext that goes into column pair `j` of output `i`.
pub open spec fn input_index(
    params: &Params,
    idx_factor: int,
    idx_offset: int,
    i: int,
    j: int,
) -> int {
    idx_factor * (i * params.t_gsw + j) + idx_offset
}

/// Column `2j + 1` of the GSW ciphertext `g` is the input `inp` itself and
/// column `2j` is the conversion key times the decomposition of `inp`.
pub open spec fn pair_done(
    params: &Params,
    g: Seq<u64>,
    key: Seq<u64>,
    inp: Seq<u64>,
    j: int,
) -> bool {
    &&& column_is(params, g, 2 * params.t_gsw, 2 * j + 1, inp)
    &&& column_is(params, g, 2 * params.t_gsw, 2 * j, conversion_product(params, key, inp))
}

/// Writing a ciphertext into column `tc` of a two-row matrix makes that
/// column the ciphertext and leaves the other columns as they were.
proof fn lemma_copy_column(params: &Params, before: Seq<u64>, cols: int, src: Seq<u64>, tc: int)
    requires
        params.wf(),
        before.len() == 2 * cols * params.num_words(),
        0 <= tc < cols,
    ensures
        column_is(
            params,
            copy_into_data(before, cols, src, 2, 1, 0, tc, params.num_words()),
            cols,
            tc,
            src,
        ),
        forall|row: int, c: int, n: int, z: int|
            0 <= row < 2 && 0 <= c < cols && c != tc && 0 <= n < params.crt_count && 0 <= z
                < params.poly_len ==> #[trigger] copy_into_data(
                before,
                cols,
                src,
                2,
                1,
                0,
                tc,
                params.num_words(),
            )[ntt_index(params, cols, row, c, n, z)] == before[ntt_index(params, cols, row, c, n, z)],
{
    let w: int = params.num_words();
    let after: Seq<u64> = copy_into_data(before, cols, src, 2, 1, 0, tc, w);
    assert forall|row: int, c: int, n: int, z: int|
        0 <= row < 2 && 0 <= c < cols && 0 <= n < params.crt_count && 0 <= z
            < params.poly_len implies #[trigger] after[ntt_index(params, cols, row, c, n, z)] == (if c
        == tc {
        src[ntt_index(params, 1, row, 0, n, z)]
    } else {
        before[ntt_index(params, cols, row, c, n, z)]
    }) by {
        lemma_ntt_index(params, 2, cols, row, c, n, z);
        let idx: int = ntt_index(params, cols, row, c, n, z);
        if c == tc {
            assert(((row - 0) * 1 + (c - tc)) * w + idx % w == ntt_index(params, 1, row, 0, n, z))
                by (nonlinear_arith)
                requires
                    c == tc,
                    idx % w == n * params.poly_len + z,
                    ntt_index(params, 1, row, 0, n, z) == (row * 1 + 0) * w + n * params.poly_len
                        + z,
            ;
        }
    }
}

/// A GSW ciphertext all of whose column pairs are done is in range when its
/// inputs are: the copied columns are the inputs, and the converted columns
/// are products, which are fully reduced.
proof fn lemma_gsw_in_range(
    params: &Params,
    g: Seq<u64>,
    key: Seq<u64>,
    v_inp: Seq<PolyMatrixNTT>,
    idx_factor: int,
    idx_offset: int,
    i: int,
)
    requires
        params.wf(),
        g.len() == 2 * (2 * params.t_gsw) * params.num_words(),
        forall|j: int|
            0 <= j < params.t_gsw ==> 0 <= #[trigger] input_index(
                params,
                idx_factor,
                idx_offset,
                i,
                j,
            ) < v_inp.len(),
        forall|k: int| 0 <= k < v_inp.len() ==> (#[trigger] v_inp[k]).is_shape(params, 2, 1),
        forall|k: int| 0 <= k < v_inp.len() ==> (#[trigger] v_inp[k]).in_range(params),
        forall|j: int|
            0 <= j < params.t_gsw ==> #[trigger] pair_done(
                params,
                g,
                key,
                v_inp[input_index(params, idx_factor, idx_offset, i, j)].data@,
                j,
            ),
    ensures
        words_in_range(params, g),
{
    let w: int = params.num_words();
    let cols: int = 2 * params.t_gsw;
    assert forall|k: int| 0 <= k < g.len() implies (#[trigger] g[k] as int) < 2 * params.q(
        residue_of(params, k),
    ) by {
        lemma_ntt_coords(params, 2, cols, k);
        let row: int = k / w / cols;
        let c: int = (k / w) % cols;
        let n: int = residue_of(params, k);
        let z: int = position_of(params, k);
        let j: int = c / 2;
        let src: PolyMatrixNTT = v_inp[input_index(params, idx_factor, idx_offset, i, j)];
        let inp: Seq<u64> = src.data@;
        assert(pair_done(params, g, key, inp, j));
        lemma_ntt_index(params, 2, 1, row, 0, n, z);
        let m: int = ntt_index(params, 1, row, 0, n, z);
        assert(2 * 1 * w == 2 * w) by (nonlinear_arith);
        if c % 2 == 1 {
            assert(c == 2 * j + 1);
            assert(g[ntt_index(params, cols, row, 2 * j + 1, n, z)] == inp[m]);
            assert(src.is_shape(params, 2, 1));
            assert(src.in_range(params));
            assert(inp.len() == 2 * 1 * w) by (nonlinear_arith)
                requires
                    inp.len() == src.rows * src.cols * w,
                    src.rows == 2,
                    src.cols == 1,
            ;
            assert((inp[m] as int) < 2 * params.q(residue_of(params, m)));
        } else {
            assert(c == 2 * j);
            let conv: Seq<u64> = conversion_product(params, key, inp);
            assert(g[ntt_index(params, cols, row, 2 * j, n, z)] == conv[m]);
            let digits: Seq<u64> = to_ntt_data(
                params,
                gadget_data(params, from_ntt_data(params, inp), 2 * params.t_conv, 1, 2),
            );
            assert(conv[m] == multiply_word(params, key, 2 * params.t_conv, digits, 1, m));
            lemma_mod_bound(
                mul_sum(
                    params,
                    key,
                    2 * params.t_conv,
                    digits,
                    1,
                    (m / w) / 1,
                    (m / w) % 1,
                    n,
                    position_of(params, m),
                    2 * params.t_conv,
                ),
                params.q(n),
            );
        }
    }
}

/// What the columns of a GSW ciphertext decrypt to. For every key residue
/// `s`, the phase of the copied column `2j + 1` is the phase of the input
/// ciphertext, and the phase of the converted column `2j` is, modulo the
/// modulus of the residue, the sum over the digits of the input of the phase
/// of the column of the conversion key times the digit.
pub proof fn lemma_gsw_phase(
    params: &Params,
    g: Seq<u64>,
    key: Seq<u64>,
    inp: Seq<u64>,
    j: int,
    s: int,
    n: int,
    z: int,
)
    requires
        params.wf(),
        pair_done(params, g, key, inp, j),
        0 <= n < params.crt_count,
        0 <= z < params.poly_len,
    ensures
        column_phase(params, g, 2 * params.t_gsw, 2 * j + 1, s, n, z) == column_phase(
            params,
            inp,
            1,
            0,
            s,
            n,
            z,
        ),
        column_phase(params, g, 2 * params.t_gsw, 2 * j, s, n, z) % params.q(n) == phase_product(
            params,
            key,
            2 * params.t_conv,
            to_ntt_data(
                params,
                gadget_data(params, from_ntt_data(params, inp), 2 * params.t_conv, 1, 2),
            ),
            1,
            0,
            s,
            n,
            z,
            2 * params.t_conv,
        ) % params.q(n),
{
    let cols: int = 2 * params.t_gsw;
    let conv: Seq<u64> = conversion_product(params, key, inp);
    assert(g[ntt_index(params, cols, 1, 2 * j + 1, n, z)] == inp[ntt_index(params, 1, 1, 0, n, z)]);
    assert(g[ntt_index(params, cols, 0, 2 * j + 1, n, z)] == inp[ntt_index(params, 1, 0, 0, n, z)]);
    assert(g[ntt_index(params, cols, 1, 2 * j, n, z)] == conv[ntt_index(params, 1, 1, 0, n, z)]);
    assert(g[ntt_index(params, cols, 0, 2 * j, n, z)] == conv[ntt_index(params, 1, 0, 0, n, z)]);
    lemma_product_phase(
        params,
        key,
        2 * params.t_conv,
        to_ntt_data(
            params,
            gadget_data(params, from_ntt_data(params, inp), 2 * params.t_conv, 1, 2),
        ),
        1,
        0,
        s,
        n,
        z,
    );
}

/// Builds `db_dim_2` GSW ciphertexts from Regev ciphertexts.
///
/// For `i < db_dim_2` and `j < t_gsw` the input ciphertext at
/// `idx_factor * (i * t_gsw + j) + idx_offset` becomes column `2j + 1` of
/// `v_gsw[i]`, and the conversion key `v` times the full decomposition of
/// that ciphertext becomes column `2j`.
pub fn regev_to_gsw(
    v_gsw: &mut Vec<PolyMatrixNTT>,
    v_inp: &Vec<PolyMatrixNTT>,
    v: &PolyMatrixNTT,
    params: &Params,
    idx_factor: usize,
    idx_offset: usize,
)
    requires
        params.wf(),
        v.wf(params),
        v.rows == 2,
        v.cols == 2 * params.t_conv,
        params.db_dim_2 * params.t_gsw <= usize::MAX,
        params.db_dim_2 <= old(v_gsw)@.len(),
        forall|i: int|
            0 <= i < params.db_dim_2 ==> (#[trigger] old(v_gsw)@[i]).is_shape(
                params,
                2,
                2 * params.t_gsw,
            ),
        forall|k: int| 0 <= k < v_inp@.len() ==> (#[trigger] v_inp@[k]).is_shape(params, 2, 1),
        forall|c: int|
            0 <= c < params.db_dim_2 * params.t_gsw ==> 0 <= #[trigger] (idx_factor * c)
                + idx_offset < v_inp@.len(),
    ensures
        final(v_gsw)@.len() == old(v_gsw)@.len(),
        forall|i: int|
            params.db_dim_2 <= i < old(v_gsw)@.len() ==> final(v_gsw)@[i] == old(v_gsw)@[i],
        forall|i: int|
            0 <= i < params.db_dim_2 ==> (#[trigger] final(v_gsw)@[i]).is_shape(
                params,
                2,
                2 * params.t_gsw,
            ),
        forall|i: int, j: int|
            0 <= i < params.db_dim_2 && 0 <= j < params.t_gsw ==> #[trigger] pair_done(
                params,
                final(v_gsw)@[i].data@,
                v.data@,
                v_inp@[input_index(params, idx_factor as int, idx_offset as int, i, j)].data@,
                j,
            ),
        (forall|k: int| 0 <= k < v_inp@.len() ==> (#[trigger] v_inp@[k]).in_range(params))
            ==> forall|i: int|
            0 <= i < params.db_dim_2 ==> (#[trigger] final(v_gsw)@[i]).in_range(params),
{
    let ghost start: Seq<PolyMatrixNTT> = v_gsw@;
    let ghost w: int = params.num_words();
    let t_gsw: usize = params.t_gsw;
    let dim2: usize = params.db_dim_2;
    let key_cols: usize = v.cols;
    let key_len: usize = v.data.len();
    let words: usize = params.words();
    let inp_count: usize = v_inp.len();
    proof {
        let len: int = params.poly_len as int;
        assert(key_cols * 1 * len <= 2 * key_cols * w && key_cols * 1 * w <= 2 * key_cols * w)
            by (nonlinear_arith)
            requires
                0 <= len <= w,
                0 <= key_cols,
        ;
        assert(2 * 1 * len <= 0x4000_0000 && 2 * 1 * w <= 0x4000_0000) by (nonlinear_arith)
            requires
                0 <= len <= w,
                w <= 0x2000_0000,
        ;
    }
    let mut ginv_c_inp: PolyMatrixRaw = PolyMatrixRaw::zero(params, key_cols, 1);
    let mut ginv_c_inp_ntt: PolyMatrixNTT = PolyMatrixNTT::zero(params, key_cols, 1);
    let mut tmp_ct_raw: PolyMatrixRaw = PolyMatrixRaw::zero(params, 2, 1);
    let mut tmp_ct: PolyMatrixNTT = PolyMatrixNTT::zero(params, 2, 1);

    let mut i: usize = 0;
    while i < dim2
        invariant
            params.wf(),
            w == params.num_words(),
            words == w,
            t_gsw == params.t_gsw,
            dim2 == params.db_dim_2,
            key_cols == v.cols,
            key_len == v.data@.len(),
            inp_count == v_inp@.len(),
            v.wf(params),
            v.rows == 2,
            v.cols == 2 * params.t_conv,
            dim2 * t_gsw <= usize::MAX,
            dim2 <= start.len(),
            forall|k: int| 0 <= k < v_inp@.len() ==> (#[trigger] v_inp@[k]).is_shape(params, 2, 1),
            forall|c: int|
                0 <= c < dim2 * t_gsw ==> 0 <= #[trigger] (idx_factor * c) + idx_offset
                    < v_inp@.len(),
            ginv_c_inp.is_shape(params, key_cols as int, 1),
            ginv_c_inp_ntt.is_shape(params, key_cols as int, 1),
            tmp_ct_raw.is_shape(params, 2, 1),
            tmp_ct.is_shape(params, 2, 1),
            i <= dim2,
            v_gsw@.len() == start.len(),
            forall|k: int| dim2 <= k < start.len() ==> v_gsw@[k] == start[k],
            forall|k: int|
                0 <= k < dim2 ==> (#[trigger] v_gsw@[k]).is_shape(params, 2, 2 * params.t_gsw),
            forall|ii: int, j: int|
                0 <= ii < i && 0 <= j < t_gsw ==> #[trigger] pair_done(
                    params,
                    v_gsw@[ii].data@,
                    v.data@,
                    v_inp@[input_index(params, idx_factor as int, idx_offset as int, ii, j)].data@,
                    j,
                ),
        decreases dim2 - i,
    {
        let ghost outer: Seq<PolyMatrixNTT> = v_gsw@;
        let g_cols: usize = v_gsw[i].cols;
        let mut j: usize = 0;
        while j < t_gsw
            invariant
                params.wf(),
                w == params.num_words(),
                words == w,
                t_gsw == params.t_gsw,
                dim2 == params.db_dim_2,
                key_cols == v.cols,
                key_len == v.data@.len(),
                inp_count == v_inp@.len(),
                v.wf(params),
                v.rows == 2,
                v.cols == 2 * params.t_conv,
                dim2 * t_gsw <= usize::MAX,
                dim2 <= start.len(),
                forall|k: int|
                    0 <= k < v_inp@.len() ==> (#[trigger] v_inp@[k]).is_shape(params, 2, 1),
                forall|c: int|
                    0 <= c < dim2 * t_gsw ==> 0 <= #[trigger] (idx_factor * c) + idx_offset
                        < v_inp@.len(),
                ginv_c_inp.is_shape(params, key_cols as int, 1),
                ginv_c_inp_ntt.is_shape(params, key_cols as int, 1),
                tmp_ct_raw.is_shape(params, 2, 1),
                tmp_ct.is_shape(params, 2, 1),
                i < dim2,
                j <= t_gsw,
                g_cols == 2 * t_gsw,
                v_gsw@.len() == start.len(),
                outer.len() == start.len(),
                forall|k: int| 0 <= k < start.len() && k != i ==> v_gsw@[k] == outer[k],
                v_gsw@[i as int].is_shape(params, 2, 2 * params.t_gsw),
                forall|jj: int|
                    0 <= jj < j ==> #[trigger] pair_done(
                        params,
                        v_gsw@[i as int].data@,
                        v.data@,
                        v_inp@[input_index(
                            params,
                            idx_factor as int,
                            idx_offset as int,
                            i as int,
                            jj,
                        )].data@,
                        jj,
                    ),
            decreases t_gsw - j,
        {
            proof {
                assert(0 <= i * t_gsw + j < dim2 * t_gsw) by (nonlinear_arith)
                    requires
                        0 <= i < dim2,
                        0 <= j < t_gsw,
                ;
                let c: int = i * t_gsw + j;
                assert(0 <= (idx_factor * c) + idx_offset < v_inp@.len());
                assert(0 <= idx_factor * c) by (nonlinear_arith)
                    requires
                        0 <= idx_factor,
                        0 <= c,
                ;
            }
            let idx_ct: usize = i * t_gsw + j;
            let idx_inp: usize = idx_factor * idx_ct + idx_offset;
            let ghost g0: Seq<u64> = v_gsw@[i as int].data@;
            let ghost inp: Seq<u64> = v_inp@[idx_inp as int].data@;
            proof {
                assert(g0.len() == 2 * (2 * t_gsw) * w) by (nonlinear_arith)
                    requires
                        g0.len() == 2 * (2 * params.t_gsw) * params.num_words(),
                        w == params.num_words(),
                        t_gsw == params.t_gsw,
                ;
            }
            v_gsw[i].copy_into(params, &v_inp[idx_inp], 0, 2 * j + 1);
            let ghost g1: Seq<u64> = v_gsw@[i as int].data@;
            from_ntt(params, &mut tmp_ct_raw, &v_inp[idx_inp]);
            gadget_invert(params, &mut ginv_c_inp, &tmp_ct_raw);
            to_ntt(params, &mut ginv_c_inp_ntt, &ginv_c_inp);
            multiply(params, &mut tmp_ct, v, &ginv_c_inp_ntt);
            v_gsw[i].copy_into(params, &tmp_ct, 0, 2 * j);
            proof {
                let g2: Seq<u64> = v_gsw@[i as int].data@;
                let conv: Seq<u64> = conversion_product(params, v.data@, inp);
                let cols: int = 2 * t_gsw;
                assert(tmp_ct.data@ == conv);
                lemma_copy_column(params, g0, cols, inp, 2 * j + 1);
                lemma_copy_column(params, g1, cols, conv, 2 * j as int);
                assert(pair_done(params, g2, v.data@, inp, j as int));
                assert forall|jj: int| 0 <= jj < j implies #[trigger] pair_done(
                    params,
                    g2,
                    v.data@,
                    v_inp@[input_index(
                        params,
                        idx_factor as int,
                        idx_offset as int,
                        i as int,
                        jj,
                    )].data@,
                    jj,
                ) by {
                    let other: Seq<u64> = v_inp@[input_index(
                        params,
                        idx_factor as int,
                        idx_offset as int,
                        i as int,
                        jj,
                    )].data@;
                    assert(pair_done(params, g0, v.data@, other, jj));
                }
            }
            j += 1;
        }
        proof {
            assert forall|k: int| 0 <= k < dim2 implies (#[trigger] v_gsw@[k]).is_shape(
                params,
                2,
                2 * params.t_gsw,
            ) by {
                if k != i {
                    assert(outer[k].is_shape(params, 2, 2 * params.t_gsw));
                }
            }
            assert forall|ii: int, j: int| 0 <= ii < i + 1 && 0 <= j < t_gsw implies #[trigger] pair_done(
                params,
                v_gsw@[ii].data@,
                v.data@,
                v_inp@[input_index(params, idx_factor as int, idx_offset as int, ii, j)].data@,
                j,
            ) by {
                if ii < i {
                    assert(pair_done(
                        params,
                        outer[ii].data@,
                        v.data@,
                        v_inp@[input_index(
                            params,
                            idx_factor as int,
                            idx_offset as int,
                            ii,
                            j,
                        )].data@,
                        j,
                    ));
                }
            }
        }
        i += 1;
    }
    proof {
        if forall|k: int| 0 <= k < v_inp@.len() ==> (#[trigger] v_inp@[k]).in_range(params) {
            assert forall|i: int| 0 <= i < params.db_dim_2 implies (#[trigger] v_gsw@[i]).in_range(
                params,
            ) by {
                assert(v_gsw@[i].is_shape(params, 2, 2 * params.t_gsw));
                assert(v_gsw@[i].data@.len() == 2 * (2 * params.t_gsw) * params.num_words())
                    by (nonlinear_arith)
                    requires
                        v_gsw@[i].data@.len() == v_gsw@[i].rows * v_gsw@[i].cols
                            * params.num_words(),
                        v_gsw@[i].rows == 2,
                        v_gsw@[i].cols == 2 * params.t_gsw,
                ;
                assert forall|j: int| 0 <= j < params.t_gsw implies 0 <= #[trigger] input_index(
                    params,
                    idx_factor as int,
                    idx_offset as int,
                    i,
                    j,
                ) < v_inp@.len() by {
                    let c: int = i * params.t_gsw + j;
                    assert(0 <= c < params.db_dim_2 * params.t_gsw) by (nonlinear_arith)
                        requires
                            0 <= i < params.db_dim_2,
                            0 <= j < params.t_gsw,
                            c == i * params.t_gsw + j,
                    ;
                    assert(0 <= (idx_factor * c) + idx_offset < v_inp@.len());
                }
                lemma_gsw_in_range(
                    params,
                    v_gsw@[i].data@,
                    v.data@,
                    v_inp@,
                    idx_factor as int,
                    idx_offset as int,
                    i,
                );
            }
        }
    }
}

/// Number of database items: the product of the two dimensions.
pub open spec fn num_items(params: &Params) -> int {
    (pow2(params.db_dim_1 as nat) * pow2(params.db_dim_2 as nat)) as int
}

/// Number of words of the packed database: one per item, per entry of the
/// `n x n` plaintext matrix, and per coefficient.
pub open spec fn db_size(params: &Params) -> int {
    (params.n * params.n) * num_items(params) * (params.poly_len as int)
}

/// Coefficient of a plaintext polynomial drawn from the random word at `k`.
pub open spec fn plain_word(params: &Params, words: Seq<u64>, k: int) -> u64 {
    (((words[k] as int) % (params.modulus as int)) % (params.pt_modulus as int)) as u64
}

/// The plaintext coefficients, each moved to the residue of the same
/// centered number modulo the ciphertext modulus.
pub open spec fn recentered(params: &Params, words: Seq<u64>) -> Seq<u64> {
    Seq::new(
        words.len(),
        |k: int| recenter(plain_word(params, words, k), params.pt_modulus, params.modulus),
    )
}

/// Word `k` of the plaintext of item `item_idx`: entry `k / poly_len` of its
/// matrix is the polynomial drawn for that entry and that item.
pub open spec fn item_word(params: &Params, words: Seq<u64>, item_idx: int, k: int) -> u64 {
    let len: int = params.poly_len as int;
    if item_idx < num_items(params) {
        plain_word(params, words, ((k / len) * num_items(params) + item_idx) * len + k % len)
    } else {
        0
    }
}

/// The plaintext of item `item_idx`, an `n x n` matrix in coefficient form.
pub open spec fn item_data(params: &Params, words: Seq<u64>, item_idx: int) -> Seq<u64> {
    Seq::new(
        (params.n * params.n * params.poly_len) as nat,
        |k: int| item_word(params, words, item_idx, k),
    )
}

/// Word `idx` of the packed database. The words are ordered by matrix entry,
/// then position `z`, then second-dimension index `ii`, then first-dimension
/// index `j`; the word holds both residues at `z` of the transform of the
/// recentered polynomial of item `j * 2^db_dim_2 + ii`.
pub open spec fn db_word(params: &Params, words: Seq<u64>, idx: int) -> int {
    let len: int = params.poly_len as int;
    let dim0: int = pow2(params.db_dim_1 as nat) as int;
    let num_per: int = pow2(params.db_dim_2 as nat) as int;
    let j: int = idx % dim0;
    let ii: int = (idx / dim0) % num_per;
    let z: int = (idx / dim0 / num_per) % len;
    let trial: int = idx / dim0 / num_per / len;
    let off: int = (trial * num_items(params) + (j * num_per + ii)) * len;
    pack(
        forward_coeff(recentered(params, words), off, len, params.roots@[0] as int, params.q(0), z),
        forward_coeff(recentered(params, words), off, len, params.roots@[1] as int, params.q(1), z),
    )
}

/// The packed database made from the random words.
pub open spec fn db_data(params: &Params, words: Seq<u64>) -> Seq<u64> {
    Seq::new(db_size(params) as nat, |idx: int| db_word(params, words, idx) as u64)
}

/// The sizes of the database: entries of the plaintext matrix, first
/// dimension, second dimension, and number of words.
fn db_dims(params: &Params) -> (res: (usize, usize, usize, usize))
    requires
        params.wf(),
        db_size(params) <= usize::MAX,
    ensures
        res.0 == params.n * params.n,
        res.1 == pow2(params.db_dim_1 as nat),
        res.2 == pow2(params.db_dim_2 as nat),
        res.3 == db_size(params),
        res.0 >= 1,
        res.1 >= 1,
        res.2 >= 1,
        res.1 * res.2 == num_items(params),
        1 <= res.1 * res.2 <= usize::MAX,
        res.0 * (res.1 * res.2) <= res.3,
        res.3 == res.0 * (res.1 * res.2) * params.poly_len,
        res.3 == res.0 * params.poly_len * res.2 * res.1,
{
    let ghost a: int = params.n * params.n;
    let ghost p1: int = pow2(params.db_dim_1 as nat) as int;
    let ghost p2: int = pow2(params.db_dim_2 as nat) as int;
    let ghost len: int = params.poly_len as int;
    proof {
        lemma_pow2_pos(params.db_dim_1 as nat);
        lemma_pow2_pos(params.db_dim_2 as nat);
        assert(a >= 1) by (nonlinear_arith)
            requires
                a == params.n * params.n,
                params.n >= 1,
        ;
        assert(a <= a * (p1 * p2) * len && p1 <= a * (p1 * p2) * len && p2 <= a * (p1 * p2) * len
            && 1 <= p1 * p2 <= a * (p1 * p2) * len && a * (p1 * p2) <= a * (p1 * p2) * len && a
            * (p1 * p2) * len == a * len * p2 * p1) by (nonlinear_arith)
            requires
                a >= 1,
                p1 >= 1,
                p2 >= 1,
                len >= 1,
        ;
    }
    let trials: usize = params.n * params.n;
    let dim0: usize = pow2_usize(params.db_dim_1);
    let num_per: usize = pow2_usize(params.db_dim_2);
    let total: usize = trials * (dim0 * num_per) * params.poly_len;
    (trials, dim0, num_per, total)
}

/// The plaintext of one item and the packed database, made from the random
/// words `words`, one word per coefficient of every item.
///
/// Every coefficient is the word reduced modulo the ciphertext modulus and
/// then modulo the plaintext modulus. The item is returned as drawn; for
/// the database every polynomial is recentered, transformed, and its two
/// residues are packed into one word.
pub fn build_db_and_get_item(params: &Params, item_idx: usize, words: &Vec<u64>) -> (res: (
    PolyMatrixRaw,
    Vec<u64>,
))
    requires
        params.wf(),
        params.crt_count == 2,
        words@.len() == db_size(params),
        2 * db_size(params) <= usize::MAX,
    ensures
        res.0.is_shape(params, params.n as int, params.n as int),
        res.0.data@ == item_data(params, words@, item_idx as int),
        res.1@ == db_data(params, words@),
        forall|idx: int|
            0 <= idx < res.1@.len() ==> packed_in_range(params, #[trigger] res.1@[idx]),
{
    let len: usize = params.poly_len;
    let words_len: usize = words.len();
    let dims: (usize, usize, usize, usize) = db_dims(params);
    let trials: usize = dims.0;
    let dim0: usize = dims.1;
    let num_per: usize = dims.2;
    let total: usize = dims.3;
    let items: usize = dim0 * num_per;
    let modulus: u64 = params.modulus;
    let pt_modulus: u64 = params.pt_modulus;

    let mut rec: Vec<u64> = Vec::new();
    let mut k: usize = 0;
    while k < total
        invariant
            params.wf(),
            modulus == params.modulus,
            pt_modulus == params.pt_modulus,
            total == words@.len(),
            k <= total,
            rec@.len() == k,
            forall|i: int|
                0 <= i < k ==> rec@[i] == recenter(
                    plain_word(params, words@, i),
                    params.pt_modulus,
                    params.modulus,
                ),
        decreases total - k,
    {
        let plain: u64 = (words[k] % modulus) % pt_modulus;
        let val: u64 = recenter_mod(plain, pt_modulus, modulus);
        rec.push(val);
        k += 1;
    }
    assert(rec@ =~= recentered(params, words@));
    let rec_len: usize = rec.len();

    proof {
        assert(params.n * params.n * len <= total) by (nonlinear_arith)
            requires
                total == trials * (dim0 * num_per) * len,
                trials == params.n * params.n,
                dim0 * num_per >= 1,
                len >= 0,
                trials >= 0,
        ;
    }
    let mut item: PolyMatrixRaw = PolyMatrixRaw::zero(params, params.n, params.n);
    let item_len: usize = item.data.len();
    if item_idx < items {
        let mut k: usize = 0;
        while k < item_len
            invariant
                params.wf(),
                len == params.poly_len,
                modulus == params.modulus,
                pt_modulus == params.pt_modulus,
                total == words@.len(),
                total == trials * (dim0 * num_per) * len,
                items == dim0 * num_per,
                items == num_items(params),
                item_idx < items,
                item.rows == params.n,
                item.cols == params.n,
                item_len == item.data@.len(),
                item_len == trials * len,
                k <= item_len,
                forall|i: int|
                    0 <= i < k ==> item.data@[i] == item_word(params, words@, item_idx as int, i),
            decreases item_len - k,
        {
            proof {
                lemma_div_lt(k as int, trials as int, len as int);
                let p: int = (k / len) * items + item_idx;
                assert(0 <= (k / len) * items <= p < trials * items) by (nonlinear_arith)
                    requires
                        0 <= (k / len) < trials,
                        0 <= item_idx < items,
                        p == (k / len) * items + item_idx,
                ;
                lemma_block_bound(p, trials * items, len as int);
                assert(p <= p * len) by (nonlinear_arith)
                    requires
                        p >= 0,
                        len >= 1,
                ;
            }
            let src: usize = ((k / len) * items + item_idx) * len + k % len;
            let plain: u64 = (words[src] % modulus) % pt_modulus;
            item.data[k] = plain;
            k += 1;
        }
    } else {
        assert forall|i: int| 0 <= i < item_len implies item.data@[i] == item_word(
            params,
            words@,
            item_idx as int,
            i,
        ) by {}
    }
    assert(item.data@ =~= item_data(params, words@, item_idx as int));

    let polys: usize = trials * items;
    let words_per: usize = params.words();
    proof {
        assert(polys * 1 * len == total && polys * 1 * params.num_words() == 2 * total)
            by (nonlinear_arith)
            requires
                total == trials * (dim0 * num_per) * len,
                items == dim0 * num_per,
                polys == trials * items,
                params.num_words() == 2 * len,
        ;
    }
    let raw: PolyMatrixRaw = PolyMatrixRaw { rows: polys, cols: 1, data: rec };
    let mut ntt: PolyMatrixNTT = PolyMatrixNTT::zero(params, polys, 1);
    to_ntt(params, &mut ntt, &raw);
    let ntt_len: usize = ntt.data.len();

    let mut v: Vec<u64> = Vec::new();
    let mut idx: usize = 0;
    while idx < total
        invariant
            params.wf(),
            params.crt_count == 2,
            len == params.poly_len,
            words_per == params.num_words(),
            words_per == 2 * len,
            total == db_size(params),
            total == trials * (dim0 * num_per) * len,
            total == trials * len * num_per * dim0,
            items == dim0 * num_per,
            items == num_items(params),
            polys == trials * items,
            dim0 == pow2(params.db_dim_1 as nat),
            num_per == pow2(params.db_dim_2 as nat),
            dim0 >= 1,
            num_per >= 1,
            raw.data@ == recentered(params, words@),
            ntt.data@ == to_ntt_data(params, raw.data@),
            ntt.in_range(params),
            ntt_len == ntt.data@.len(),
            ntt_len == polys * 1 * words_per,
            idx <= total,
            v@.len() == idx,
            forall|i: int| 0 <= i < idx ==> v@[i] as int == db_word(params, words@, i),
            forall|i: int| 0 <= i < idx ==> packed_in_range(params, #[trigger] v@[i]),
        decreases total - idx,
    {
        proof {
            lemma_div_lt(idx as int, trials * len * num_per, dim0 as int);
            lemma_div_lt((idx / dim0) as int, trials * len, num_per as int);
            lemma_div_lt((idx / dim0 / num_per) as int, trials as int, len as int);
        }
        let j: usize = idx % dim0;
        let ii: usize = (idx / dim0) % num_per;
        let z: usize = (idx / dim0 / num_per) % len;
        let trial: usize = idx / dim0 / num_per / len;
        proof {
            let i: int = j * num_per + ii;
            assert(0 <= j * num_per <= i < dim0 * num_per) by (nonlinear_arith)
                requires
                    0 <= j < dim0,
                    0 <= ii < num_per,
                    i == j * num_per + ii,
            ;
            let p: int = trial * items + i;
            assert(0 <= trial * items <= p < trials * items) by (nonlinear_arith)
                requires
                    0 <= trial < trials,
                    0 <= i < items,
                    p == trial * items + i,
            ;
            lemma_ntt_index(params, polys as int, 1, p, 0, 0, z as int);
            lemma_ntt_index(params, polys as int, 1, p, 0, 1, z as int);
            assert(ntt_index(params, 1, p, 0, 0, z as int) == p * words_per + z && ntt_index(
                params,
                1,
                p,
                0,
                1,
                z as int,
            ) == p * words_per + z + len && p <= p * words_per) by (nonlinear_arith)
                requires
                    ntt_index(params, 1, p, 0, 0, z as int) == (p * 1 + 0) * params.num_words() + 0
                        * len + z,
                    ntt_index(params, 1, p, 0, 1, z as int) == (p * 1 + 0) * params.num_words() + 1
                        * len + z,
                    words_per == params.num_words(),
                    words_per >= 1,
                    p >= 0,
            ;
            assert((p * 1 + 0) == p);
        }
        let at: usize = (trial * items + (j * num_per + ii)) * words_per + z;
        let lo: u64 = ntt.data[at];
        let hi: u64 = ntt.data[at + len];
        proof {
            assert(ntt.data@[at as int] == to_ntt_word(params, raw.data@, at as int));
            assert(ntt.data@[at + len] == to_ntt_word(params, raw.data@, at + len));
            assert((ntt.data@[at as int] as int) < 2 * params.q(residue_of(params, at as int)));
            assert((ntt.data@[at + len] as int) < 2 * params.q(residue_of(params, at + len)));
        }
        let w: u64 = pack_residues(lo, hi);
        v.push(w);
        idx += 1;
    }
    assert(v@ =~= db_data(params, words@));
    (item, v)
}

/// A random database and the plaintext of its item `item_idx`.
///
/// Whatever the generator hands out, the two results are what
/// `build_db_and_get_item` makes of some sequence of random words.
pub fn generate_random_db_and_get_item(params: &Params, item_idx: usize) -> (res: (
    PolyMatrixRaw,
    Vec<u64>,
))
    requires
        params.wf(),
        params.crt_count == 2,
        2 * db_size(params) <= usize::MAX,
    ensures
        res.0.is_shape(params, params.n as int, params.n as int),
        res.1@.len() == db_size(params),
        exists|words: Seq<u64>|
            words.len() == db_size(params) && res.0.data@ == item_data(
                params,
                words,
                item_idx as int,
            ) && res.1@ == #[trigger] db_data(params, words),
        forall|idx: int|
            0 <= idx < res.1@.len() ==> packed_in_range(params, #[trigger] res.1@[idx]),
{
    let mut rng: StdRng = get_seeded_rng();
    let dims: (usize, usize, usize, usize) = db_dims(params);
    let words: Vec<u64> = draw_words(&mut rng, dims.3);
    let res: (PolyMatrixRaw, Vec<u64>) = build_db_and_get_item(params, item_idx, &words);
    assert(res.1@ == db_data(params, words@));
    res
}

} // verus!
