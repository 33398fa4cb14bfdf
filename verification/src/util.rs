//! Helpers around the query stages: packing two residues into a word, the
//! layout of the first-dimension ciphertexts, recentering, and the random
//! source of the database generator.

use vstd::prelude::*;
use vstd::arithmetic::div_mod::*;
use vstd::arithmetic::power2::*;
use rand::rngs::StdRng;
use rand::{Rng, SeedableRng};
use crate::arith::barrett_coeff_u64;
use crate::params::Params;
use crate::poly::{lemma_div_lt, PolyMatrixNTT};

verus! {

/// A seedable pseudo-random generator. Nothing is known of its state.
#[verifier::external_type_specification]
#[verifier::external_body]
pub struct ExStdRng(StdRng);

/// `rand::random::<u64>`: a word from the generator of the current thread,
/// which the operating system seeds. Nothing is claimed of the word.
#[verifier::external_body]
fn fresh_seed() -> (seed: u64) {
    rand::random::<u64>()
}

/// `StdRng::seed_from_u64`: a generator made from a seed. Nothing is claimed
/// of the generator.
#[verifier::external_body]
fn seeded_rng(seed: u64) -> (rng: StdRng) {
    StdRng::seed_from_u64(seed)
}

/// `Rng::gen::<u64>` on a `StdRng`: the next word of the generator. Nothing
/// is claimed of the word.
#[verifier::external_body]
fn next_word(rng: &mut StdRng) -> (word: u64) {
    rng.gen::<u64>()
}

/// A generator with a fresh, unpredictable seed.
pub fn get_seeded_rng() -> (rng: StdRng) {
    let seed: u64 = fresh_seed();
    seeded_rng(seed)
}

/// The next `count` words of the generator.
pub fn draw_words(rng: &mut StdRng, count: usize) -> (words: Vec<u64>)
    ensures
        words@.len() == count,
{
    let mut words: Vec<u64> = Vec::new();
    let mut k: usize = 0;
    while k < count
        invariant
            k <= count,
            words@.len() == k,
        decreases count - k,
    {
        let word: u64 = next_word(rng);
        words.push(word);
        k += 1;
    }
    words
}

/// `2^e` as a machine word.
pub fn pow2_usize(e: usize) -> (res: usize)
    requires
        pow2(e as nat) <= usize::MAX,
    ensures
        res == pow2(e as nat),
{
    let mut res: usize = 1;
    let mut k: usize = 0;
    proof {
        lemma2_to64();
    }
    while k < e
        invariant
            k <= e,
            res == pow2(k as nat),
            pow2(e as nat) <= usize::MAX,
        decreases e - k,
    {
        proof {
            lemma_pow2_unfold((k + 1) as nat);
            if k + 1 < e {
                lemma_pow2_strictly_increases((k + 1) as nat, e as nat);
            }
        }
        res = 2 * res;
        k += 1;
    }
    res
}

/// The representative of `val`, a residue modulo `small`, among the residues
/// modulo `large` when the upper half of the residues modulo `small` stands
/// for negative numbers.
pub open spec fn recenter(val: u64, small: u64, large: u64) -> u64 {
    if val > small / 2 {
        (val + large - small) as u64
    } else {
        val
    }
}

/// Moves a residue modulo `small_modulus` to the residue modulo
/// `large_modulus` of the same centered number.
pub fn recenter_mod(val: u64, small_modulus: u64, large_modulus: u64) -> (res: u64)
    requires
        val < small_modulus <= large_modulus,
    ensures
        res == recenter(val, small_modulus, large_modulus),
        res < large_modulus,
{
    if val > small_modulus / 2 {
        val + (large_modulus - small_modulus)
    } else {
        val
    }
}

/// The word that holds `lo` in its low half and `hi` in its high half.
pub open spec fn pack(lo: int, hi: int) -> int {
    lo + hi * 0x1_0000_0000
}

/// The `n`-th residue packed into a word: the low half for `n == 0`, the
/// high half otherwise.
pub open spec fn packed_residue(w: u64, n: int) -> int {
    if n == 0 {
        (w as int) % 0x1_0000_0000
    } else {
        (w as int) / 0x1_0000_0000
    }
}

/// Packs two residues that fit in 32 bits into one word.
pub fn pack_residues(lo: u64, hi: u64) -> (w: u64)
    requires
        lo < 0x1_0000_0000,
        hi < 0x1_0000_0000,
    ensures
        w as int == pack(lo as int, hi as int),
        packed_residue(w, 0) == lo,
        packed_residue(w, 1) == hi,
{
    assert(lo | (hi << 32) == lo + hi * 0x1_0000_0000) by (bit_vector)
        requires
            lo < 0x1_0000_0000,
            hi < 0x1_0000_0000,
    ;
    proof {
        lemma_fundamental_div_mod_converse(
            (lo + hi * 0x1_0000_0000) as int,
            0x1_0000_0000,
            hi as int,
            lo as int,
        );
    }
    lo | (hi << 32)
}

/// Word `idx` of the first-dimension layout of `num` ciphertexts: position
/// `z = idx / (2 * num)` holds, for ciphertext `k` and row `row`, at
/// `2 * k + row` the two reduced residues of that row at `z`, packed.
pub open spec fn reoriented_word(
    params: &Params,
    v_reg: Seq<PolyMatrixNTT>,
    num: int,
    idx: int,
) -> int {
    let z: int = idx / (2 * num);
    let k: int = (idx % (2 * num)) / 2;
    let row: int = (idx % (2 * num)) % 2;
    let base: int = row * params.num_words() + z;
    pack(
        (v_reg[k].data@[base] as int) % params.q(0),
        (v_reg[k].data@[base + params.poly_len] as int) % params.q(1),
    )
}

/// Lays the first `2^db_dim_1` ciphertexts of `v_reg` out for the
/// first-dimension inner product.
pub fn reorient_reg_ciphertexts(params: &Params, out: &mut [u64], v_reg: &Vec<PolyMatrixNTT>)
    requires
        params.wf(),
        params.crt_count == 2,
        pow2(params.db_dim_1 as nat) <= v_reg@.len(),
        params.poly_len * (2 * pow2(params.db_dim_1 as nat)) <= old(out)@.len(),
        forall|k: int|
            0 <= k < pow2(params.db_dim_1 as nat) ==> (#[trigger] v_reg@[k]).is_shape(params, 2, 1),
    ensures
        final(out)@.len() == old(out)@.len(),
        forall|idx: int|
            0 <= idx < params.poly_len * (2 * pow2(params.db_dim_1 as nat))
                ==> (#[trigger] final(out)@[idx]) as int == reoriented_word(
                params,
                v_reg@,
                pow2(params.db_dim_1 as nat) as int,
                idx,
            ),
        forall|idx: int|
            0 <= idx < params.poly_len * (2 * pow2(params.db_dim_1 as nat)) ==> packed_residue(
                #[trigger] final(out)@[idx],
                0,
            ) < params.q(0) && packed_residue(final(out)@[idx], 1) < params.q(1),
        forall|idx: int|
            params.poly_len * (2 * pow2(params.db_dim_1 as nat)) <= idx < old(out)@.len()
                ==> final(out)@[idx] == old(out)@[idx],
{
    let len: usize = params.poly_len;
    let words: usize = params.words();
    let v_len: usize = v_reg.len();
    let out_len: usize = out.len();
    let num: usize = pow2_usize(params.db_dim_1);
    let ghost before: Seq<u64> = out@;
    assert(2 * num <= len * (2 * num)) by (nonlinear_arith)
        requires
            len >= 1,
            num >= 0,
    ;
    let stride: usize = 2 * num;
    let total: usize = len * stride;
    let mut idx: usize = 0;
    while idx < total
        invariant
            params.wf(),
            params.crt_count == 2,
            len == params.poly_len,
            words == params.num_words(),
            v_len == v_reg@.len(),
            num == pow2(params.db_dim_1 as nat),
            num <= v_len,
            stride == 2 * num,
            total == len * stride,
            total <= out_len,
            out_len == out@.len(),
            before.len() == out_len,
            forall|k: int| 0 <= k < num ==> (#[trigger] v_reg@[k]).is_shape(params, 2, 1),
            idx <= total,
            forall|i: int|
                0 <= i < idx ==> (#[trigger] out@[i]) as int == reoriented_word(
                    params,
                    v_reg@,
                    num as int,
                    i,
                ),
            forall|i: int|
                0 <= i < idx ==> packed_residue(#[trigger] out@[i], 0) < params.q(0)
                    && packed_residue(out@[i], 1) < params.q(1),
            forall|i: int| idx <= i < out_len ==> out@[i] == before[i],
        decreases total - idx,
    {
        proof {
            lemma_div_lt(idx as int, len as int, stride as int);
            lemma_div_lt((idx % stride) as int, num as int, 2);
        }
        let z: usize = idx / stride;
        let rem: usize = idx % stride;
        let k: usize = rem / 2;
        let row: usize = rem % 2;
        proof {
            assert(v_reg@[k as int].is_shape(params, 2, 1));
            assert(v_reg@[k as int].data@.len() == 2 * words) by (nonlinear_arith)
                requires
                    v_reg@[k as int].data@.len() == 2 * 1 * params.num_words(),
                    words == params.num_words(),
            ;
            assert(words == len + len) by (nonlinear_arith)
                requires
                    words == params.crt_count * len,
                    params.crt_count == 2,
            ;
            assert(row * words + z + len < 2 * words) by (nonlinear_arith)
                requires
                    0 <= row < 2,
                    0 <= z < len,
                    words == len + len,
            ;
        }
        let base: usize = row * words + z;
        let lo: u64 = barrett_coeff_u64(params, v_reg[k].data[base], 0);
        let hi: u64 = barrett_coeff_u64(params, v_reg[k].data[base + len], 1);
        let w: u64 = pack_residues(lo, hi);
        out[idx] = w;
        idx += 1;
    }
}

/// `a`, a residue modulo `inp_mod`, scaled to a residue modulo `out_mod`:
/// the centered number that `a` stands for, times `out_mod / inp_mod`,
/// rounded to the nearest integer (halves away from zero).
pub open spec fn rescaled(a: u64, inp_mod: u64, out_mod: u64) -> int {
    let inp: int = inp_mod as int;
    let out: int = out_mod as int;
    let v: int = (a as int) % inp;
    if v >= inp / 2 {
        (out - (((inp - v) * out + inp / 2) / inp) % out) % out
    } else {
        ((v * out + inp / 2) / inp) % out
    }
}

/// Scales a residue modulo `inp_mod` to a residue modulo `out_mod`.
pub fn rescale(a: u64, inp_mod: u64, out_mod: u64) -> (res: u64)
    requires
        inp_mod >= 1,
        out_mod >= 1,
    ensures
        res as int == rescaled(a, inp_mod, out_mod),
        res < out_mod,
{
    let inp: u128 = inp_mod as u128;
    let out: u128 = out_mod as u128;
    let v: u128 = (a % inp_mod) as u128;
    if v >= inp / 2 {
        let m: u128 = inp - v;
        assert(m * out + inp / 2 <= 0xffff_ffff_ffff_ffff * 0xffff_ffff_ffff_ffff
            + 0xffff_ffff_ffff_ffff) by (nonlinear_arith)
            requires
                m <= 0xffff_ffff_ffff_ffff,
                out <= 0xffff_ffff_ffff_ffff,
                inp <= 0xffff_ffff_ffff_ffff,
        ;
        let r: u128 = ((m * out + inp / 2) / inp) % out;
        ((out - r) % out) as u64
    } else {
        assert(v * out + inp / 2 <= 0xffff_ffff_ffff_ffff * 0xffff_ffff_ffff_ffff
            + 0xffff_ffff_ffff_ffff) by (nonlinear_arith)
            requires
                v <= 0xffff_ffff_ffff_ffff,
                out <= 0xffff_ffff_ffff_ffff,
                inp <= 0xffff_ffff_ffff_ffff,
        ;
        (((v * out + inp / 2) / inp) % out) as u64
    }
}

/// The index that the first `k` coordinates give in a row-major array with
/// the given side lengths.
pub open spec fn row_major(indices: Seq<usize>, lengths: Seq<usize>, k: int) -> int
    decreases k,
{
    if k <= 0 {
        0
    } else {
        row_major(indices, lengths, k - 1) * (lengths[k - 1] as int) + (indices[k - 1] as int)
    }
}

/// The product of the first `k` side lengths.
pub open spec fn extent(lengths: Seq<usize>, k: int) -> int
    decreases k,
{
    if k <= 0 {
        1
    } else {
        extent(lengths, k - 1) * (lengths[k - 1] as int)
    }
}

/// With no side of length zero, the product of the sides grows with their
/// number.
proof fn lemma_extent_grows(lengths: Seq<usize>, a: int, b: int)
    requires
        0 <= a <= b <= lengths.len(),
        forall|k: int| 0 <= k < lengths.len() ==> #[trigger] lengths[k] >= 1,
    ensures
        1 <= extent(lengths, a) <= extent(lengths, b),
    decreases b,
{
    if a < b {
        lemma_extent_grows(lengths, a, b - 1);
        let e: int = extent(lengths, b - 1);
        let l: int = lengths[b - 1] as int;
        assert(e <= e * l) by (nonlinear_arith)
            requires
                e >= 1,
                l >= 1,
        ;
    } else if a > 0 {
        lemma_extent_grows(lengths, a - 1, a - 1);
        let e: int = extent(lengths, a - 1);
        let l: int = lengths[a - 1] as int;
        assert(1 <= e * l) by (nonlinear_arith)
            requires
                e >= 1,
                l >= 1,
        ;
    }
}

/// The index of an entry of a row-major array from its coordinates.
pub fn calc_index(indices: &[usize], lengths: &[usize]) -> (res: usize)
    requires
        indices@.len() == lengths@.len(),
        forall|k: int| 0 <= k < indices@.len() ==> #[trigger] indices@[k] < lengths@[k],
        extent(lengths@, lengths@.len() as int) <= usize::MAX,
    ensures
        res == row_major(indices@, lengths@, indices@.len() as int),
        res < extent(lengths@, lengths@.len() as int),
{
    let count: usize = indices.len();
    let mut acc: usize = 0;
    let mut k: usize = 0;
    proof {
        assert forall|i: int| 0 <= i < lengths@.len() implies #[trigger] lengths@[i] >= 1 by {
            assert(indices@[i] < lengths@[i]);
        }
    }
    while k < count
        invariant
            count == indices@.len(),
            count == lengths@.len(),
            forall|i: int| 0 <= i < count ==> #[trigger] indices@[i] < lengths@[i],
            forall|i: int| 0 <= i < count ==> #[trigger] lengths@[i] >= 1,
            extent(lengths@, count as int) <= usize::MAX,
            k <= count,
            acc == row_major(indices@, lengths@, k as int),
            acc < extent(lengths@, k as int),
        decreases count - k,
    {
        let l: usize = lengths[k];
        let i: usize = indices[k];
        proof {
            lemma_extent_grows(lengths@, k + 1, count as int);
            let e: int = extent(lengths@, k as int);
            assert(acc * l + i < e * l && acc * l >= 0) by (nonlinear_arith)
                requires
                    0 <= acc < e,
                    0 <= i < l,
            ;
        }
        acc = acc * l + i;
        k += 1;
    }
    acc
}

} // verus!
