//! Gadget decomposition: the digits of every coefficient in a power-of-two
//! base, least significant first.

use vstd::prelude::*;
use vstd::arithmetic::div_mod::*;
use vstd::arithmetic::mul::*;
use vstd::arithmetic::power2::*;
use vstd::bits::*;
use crate::params::Params;
use crate::poly::{lemma_block_bound, lemma_div_lt, raw_index, PolyMatrixRaw};

verus! {

/// Number of bits of one digit when a coefficient is split into `dim` digits.
pub open spec fn bits_per(params: &Params, dim: int) -> int {
    if dim == params.modulus_log2 {
        1
    } else {
        (params.modulus_log2 as int) / dim + 1
    }
}

/// Number of bits of one digit when a coefficient is split into `dim` digits.
pub fn get_bits_per(params: &Params, dim: usize) -> (res: usize)
    requires
        params.wf(),
        dim >= 1,
    ensures
        res == bits_per(params, dim as int),
        1 <= res <= 57,
{
    let log: u64 = params.modulus_log2;
    if dim as u64 == log {
        1
    } else {
        proof {
            lemma_div_pos_is_pos(log as int, dim as int);
            lemma_div_is_ordered_by_denominator(log as int, 1, dim as int);
            lemma_div_basics_3(log as int);
        }
        (log / (dim as u64)) as usize + 1
    }
}

/// Digit `k` of `val` in base `2^bits`.
pub open spec fn gadget_digit(val: u64, bits: int, k: int) -> u64 {
    (((val as int) / (pow2((bits * k) as nat) as int)) % (pow2(bits as nat) as int)) as u64
}

/// Digit `k` of `val` in base `2^bits`.
pub fn digit(val: u64, bits: usize, k: usize) -> (res: u64)
    requires
        1 <= bits <= 57,
    ensures
        res == gadget_digit(val, bits as int, k as int),
{
    proof {
        lemma2_to64();
        lemma2_to64_rest();
        lemma_pow2_pos(bits as nat);
        lemma_pow2_pos((bits * k) as nat);
        lemma_pow2_strictly_increases(bits as nat, 64);
    }
    if k >= 64 {
        proof {
            assert(bits * k >= 64) by (nonlinear_arith)
                requires
                    bits >= 1,
                    k >= 64,
            ;
            if bits * k > 64 {
                lemma_pow2_strictly_increases(64, (bits * k) as nat);
            }
            lemma_basic_div(val as int, pow2((bits * k) as nat) as int);
            lemma_small_mod(0, pow2(bits as nat));
        }
        return 0;
    }
    assert(bits * k <= 57 * 64) by (nonlinear_arith)
        requires
            bits <= 57,
            k < 64,
    ;
    let shift: usize = bits * k;
    if shift >= 64 {
        proof {
            if shift > 64 {
                lemma_pow2_strictly_increases(64, shift as nat);
            }
            lemma_basic_div(val as int, pow2(shift as nat) as int);
            lemma_small_mod(0, pow2(bits as nat));
        }
        return 0;
    }
    let sh: u64 = shift as u64;
    let b: u64 = bits as u64;
    proof {
        lemma_u64_shl_is_mul(1, b);
        lemma_u64_shr_is_div(val, sh);
        lemma_u64_low_bits_mask_is_mod(val >> sh, bits as nat);
    }
    let mask: u64 = (1u64 << b) - 1;
    (val >> sh) & mask
}

/// The number that the first `t` digits of `val` in base `2^bits` stand for.
pub open spec fn digit_sum(val: u64, bits: int, t: int) -> int
    decreases t,
{
    if t <= 0 {
        0
    } else {
        digit_sum(val, bits, t - 1) + (gadget_digit(val, bits, t - 1) as int) * (pow2(
            (bits * (t - 1)) as nat,
        ) as int)
    }
}

/// The first `t` digits of a number stand for the number modulo `2^(bits * t)`.
pub proof fn lemma_digit_sum(val: u64, bits: int, t: int)
    requires
        bits >= 1,
        t >= 0,
    ensures
        digit_sum(val, bits, t) == (val as int) % (pow2((bits * t) as nat) as int),
    decreases t,
{
    lemma_pow2_pos(bits as nat);
    if t > 0 {
        lemma_digit_sum(val, bits, t - 1);
        lemma_mul_nonnegative(bits, t - 1);
        let low: nat = (bits * (t - 1)) as nat;
        lemma_pow2_pos(low);
        lemma_pow2_adds(low, bits as nat);
        assert(low + bits as nat == (bits * t) as nat) by (nonlinear_arith)
            requires
                low == bits * (t - 1),
                bits >= 1,
                t >= 1,
        ;
        let y: int = pow2(low) as int;
        let z: int = pow2(bits as nat) as int;
        lemma_mod_breakdown(val as int, y, z);
        let d: int = ((val as int) / y) % z;
        lemma_mod_bound((val as int) / y, z);
        lemma_div_pos_is_pos(val as int, y);
        lemma_div_nonincreasing(val as int, y);
        lemma_mod_decreases(((val as int) / y) as nat, z as nat);
        assert(gadget_digit(val, bits, t - 1) as int == d);
        lemma_mul_is_commutative(d, y);
    } else {
        assert(bits * 0 == 0);
        lemma2_to64();
    }
}

/// The digits recompose the coefficient: with the digit size that goes with
/// `t` digits, the `t` digits of a coefficient below the ciphertext modulus
/// stand for the coefficient itself.
pub proof fn lemma_gadget_recomposes(params: &Params, val: u64, t: int)
    requires
        params.wf(),
        t >= 1,
        val < params.modulus,
    ensures
        digit_sum(val, bits_per(params, t), t) == val,
{
    let bits: int = bits_per(params, t);
    let log: int = params.modulus_log2 as int;
    lemma_fundamental_div_mod(log, t);
    lemma_mod_bound(log, t);
    lemma_div_pos_is_pos(log, t);
    assert(bits >= 1 && bits * t >= log) by (nonlinear_arith)
        requires
            bits == (if t == log {
                1
            } else {
                log / t + 1
            }),
            log == t * (log / t) + log % t,
            0 <= log % t < t,
            0 <= log / t,
            t >= 1,
    ;
    if bits * t > log {
        lemma_pow2_strictly_increases(log as nat, (bits * t) as nat);
    }
    lemma_digit_sum(val, bits, t);
    lemma_small_mod(val as nat, pow2((bits * t) as nat));
}

/// Word `i` of the decomposition of `inp`, a matrix with `cols` columns of
/// which the first `rdim` rows are decomposed: row `j + k * rdim` of the
/// result holds digit `k` of row `j`.
pub open spec fn gadget_word(
    params: &Params,
    inp: Seq<u64>,
    cols: int,
    rdim: int,
    bits: int,
    i: int,
) -> u64 {
    let len: int = params.poly_len as int;
    let poly: int = i / len;
    let row: int = poly / cols;
    gadget_digit(inp[raw_index(params, cols, row % rdim, poly % cols, i % len)], bits, row / rdim)
}

/// The decomposition of the first `rdim` rows of `inp` into `out_rows` rows
/// of digits.
pub open spec fn gadget_data(
    params: &Params,
    inp: Seq<u64>,
    out_rows: int,
    cols: int,
    rdim: int,
) -> Seq<u64> {
    Seq::new(
        (out_rows * cols * params.poly_len) as nat,
        |i: int| gadget_word(params, inp, cols, rdim, bits_per(params, out_rows / rdim), i),
    )
}

/// Decomposes the first `rdim` rows of `inp` into `out.rows / rdim` digits
/// each.
pub fn gadget_invert_rdim(
    params: &Params,
    out: &mut PolyMatrixRaw,
    inp: &PolyMatrixRaw,
    rdim: usize,
)
    requires
        params.wf(),
        old(out).wf(params),
        inp.wf(params),
        old(out).cols == inp.cols,
        1 <= rdim <= inp.rows,
        old(out).rows >= rdim,
        old(out).rows % rdim == 0,
    ensures
        final(out).wf(params),
        final(out).rows == old(out).rows,
        final(out).cols == old(out).cols,
        final(out).data@ == gadget_data(
            params,
            inp.data@,
            old(out).rows as int,
            inp.cols as int,
            rdim as int,
        ),
{
    let len: usize = params.poly_len;
    let cols: usize = inp.cols;
    let total: usize = out.data.len();
    let inp_len: usize = inp.data.len();
    if cols == 0 {
        assert(out.rows * out.cols * params.poly_len == 0) by (nonlinear_arith)
            requires
                out.cols == 0,
        ;
        assert(out.data@ =~= gadget_data(
            params,
            inp.data@,
            out.rows as int,
            inp.cols as int,
            rdim as int,
        ));
        return ;
    }
    proof {
        lemma_div_pos_is_pos(out.rows as int, rdim as int);
        lemma_fundamental_div_mod(out.rows as int, rdim as int);
        if out.rows / rdim == 0 {
            assert((rdim as int) * 0 == 0);
        }
    }
    let num_elems: usize = out.rows / rdim;
    let bits: usize = get_bits_per(params, num_elems);
    let mut i: usize = 0;
    while i < total
        invariant
            params.wf(),
            len == params.poly_len,
            cols == inp.cols,
            cols == out.cols,
            cols > 0,
            out.rows == old(out).rows,
            out.cols == old(out).cols,
            1 <= rdim <= inp.rows,
            total == out.data@.len(),
            total == out.rows * cols * len,
            inp_len == inp.data@.len(),
            inp_len == inp.rows * cols * len,
            1 <= bits <= 57,
            i <= total,
            forall|k: int|
                0 <= k < i ==> out.data@[k] == gadget_word(
                    params,
                    inp.data@,
                    cols as int,
                    rdim as int,
                    bits as int,
                    k,
                ),
        decreases total - i,
    {
        proof {
            lemma_div_lt(i as int, out.rows * cols, len as int);
            lemma_div_lt((i / len) as int, out.rows as int, cols as int);
            lemma_mod_bound(((i / len) / cols) as int, rdim as int);
        }
        let poly: usize = i / len;
        let z: usize = i % len;
        let row: usize = poly / cols;
        let c: usize = poly % cols;
        let j: usize = row % rdim;
        let k: usize = row / rdim;
        proof {
            let pc: int = j * cols + c;
            assert(0 <= pc < inp.rows * cols) by (nonlinear_arith)
                requires
                    0 <= j < inp.rows,
                    0 <= c < cols,
                    pc == j * cols + c,
            ;
            lemma_block_bound(pc, inp.rows * cols, len as int);
            assert(0 <= j * cols <= pc <= pc * len) by (nonlinear_arith)
                requires
                    0 <= j,
                    0 <= c,
                    0 < cols,
                    len >= 1,
                    pc == j * cols + c,
            ;
        }
        let src: usize = (j * cols + c) * len + z;
        let val: u64 = digit(inp.data[src], bits, k);
        out.data[i] = val;
        i += 1;
    }
    assert(out.data@ =~= gadget_data(
        params,
        inp.data@,
        out.rows as int,
        inp.cols as int,
        rdim as int,
    ));
}

/// Decomposes every row of `inp` into `out.rows / inp.rows` digits.
pub fn gadget_invert(params: &Params, out: &mut PolyMatrixRaw, inp: &PolyMatrixRaw)
    requires
        params.wf(),
        old(out).wf(params),
        inp.wf(params),
        old(out).cols == inp.cols,
        1 <= inp.rows <= old(out).rows,
        old(out).rows % inp.rows == 0,
    ensures
        final(out).wf(params),
        final(out).rows == old(out).rows,
        final(out).cols == old(out).cols,
        final(out).data@ == gadget_data(
            params,
            inp.data@,
            old(out).rows as int,
            inp.cols as int,
            inp.rows as int,
        ),
{
    gadget_invert_rdim(params, out, inp, inp.rows);
}

} // verus!
