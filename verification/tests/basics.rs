use spiral_rs::aligned_memory::{aligned_start, layout_fits, AlignedMemory, AlignedMemory64};
use spiral_rs::arith::{barrett_coeff_u64, barrett_raw_u64, mul_mod, pow_mod};
use spiral_rs::gadget::{digit, gadget_invert, gadget_invert_rdim, get_bits_per};
use spiral_rs::ntt::{forward_block, inverse_block, power_sums};
use spiral_rs::params::{check_two_power, find_root, log2_ceil, Params};
use spiral_rs::poly::{
    automorph, crt_compose_2, from_ntt, multiply, scalar_multiply, to_ntt, PolyMatrixNTT,
    PolyMatrixRaw,
};
use spiral_rs::util::{
    calc_index, draw_words, get_seeded_rng, pack_residues, pow2_usize, recenter_mod, rescale,
};

const Q0: u64 = 268369921;
const Q1: u64 = 249561089;

fn small_params(poly_len: usize) -> Params {
    Params::init(poly_len, &vec![Q0, Q1], 2, 256, 4, 8, 8, 8, 5, 2).unwrap()
}

fn raw_from(params: &Params, rows: usize, cols: usize, f: impl Fn(usize) -> u64) -> PolyMatrixRaw {
    let mut m = PolyMatrixRaw::zero(params, rows, cols);
    for i in 0..m.data.len() {
        m.data[i] = f(i) % params.modulus;
    }
    m
}

/// Product of two polynomials modulo `x^n + 1` and `q`, by the definition.
fn negacyclic_product(a: &[u64], b: &[u64], q: u64) -> Vec<u64> {
    let n = a.len();
    let mut out = vec![0u64; n];
    for i in 0..n {
        for j in 0..n {
            let p = ((a[i] as u128) * (b[j] as u128) % (q as u128)) as u64;
            let k = (i + j) % n;
            if i + j < n {
                out[k] = (out[k] + p) % q;
            } else {
                out[k] = (out[k] + q - p) % q;
            }
        }
    }
    out
}

#[test]
fn barrett_reduces_exactly() {
    let ratio = ((1u128 << 64) / (Q0 as u128)) as u64;
    for x in [0u64, 1, Q0 - 1, Q0, Q0 + 1, 2 * Q0, u64::MAX, 0x1234_5678_9abc_def0] {
        assert_eq!(barrett_raw_u64(x, ratio, Q0), x % Q0);
    }
    let params = small_params(8);
    assert_eq!(barrett_coeff_u64(&params, u64::MAX, 1), u64::MAX % Q1);
    assert_eq!(barrett_coeff_u64(&params, 2 * Q0 + 5, 0), 5);
}

#[test]
fn modular_power_and_product() {
    let params = small_params(8);
    assert_eq!(mul_mod(&params, Q0 + 3, 7, 0), 21);
    assert_eq!(mul_mod(&params, u64::MAX, u64::MAX, 1), ((u64::MAX % Q1) * (u64::MAX % Q1)) % Q1);
    assert_eq!(pow_mod(&params, 3, 0, 0), 1);
    assert_eq!(pow_mod(&params, 3, 5, 0), 243);
    assert_eq!(pow_mod(&params, 2, 40, 0), (1u64 << 40) % Q0);
    // Fermat: x^(q-1) = 1 modulo a prime.
    assert_eq!(pow_mod(&params, 12345, Q1 - 1, 1), 1);
}

#[test]
fn init_builds_valid_constants() {
    let params = small_params(16);
    assert_eq!(params.poly_len, 16);
    assert_eq!(params.crt_count, 2);
    assert_eq!(params.modulus, Q0 * Q1);
    assert_eq!(params.modulus_log2, 56);
    for n in 0..2 {
        let q = params.moduli[n];
        assert_eq!(params.barrett_cr_1[n], ((1u128 << 64) / (q as u128)) as u64);
        assert_eq!(pow_mod(&params, params.roots[n], 16, n), q - 1);
        assert_eq!(mul_mod(&params, params.roots[n], params.inv_roots[n], n), 1);
        assert_eq!(mul_mod(&params, 16, params.inv_poly_len[n], n), 1);
    }
    assert_eq!((Q0 as u128 * params.crt_inv as u128 % Q1 as u128) as u64, 1);
}

#[test]
fn init_rejects_bad_inputs() {
    let ok = vec![Q0, Q1];
    assert!(Params::init(0, &ok, 2, 256, 4, 8, 8, 8, 5, 2).is_none());
    // The ring degree must be a power of two.
    assert!(Params::init(12, &ok, 2, 256, 4, 8, 8, 8, 5, 2).is_none());
    assert!(Params::init(1, &ok, 2, 256, 4, 8, 8, 8, 5, 2).is_some());
    assert!(Params::init(2048, &ok, 2, 256, 4, 8, 8, 8, 5, 2).is_some());
    assert!(Params::init(8, &vec![], 2, 256, 4, 8, 8, 8, 5, 2).is_none());
    assert!(Params::init(8, &vec![Q0, Q1, Q0], 2, 256, 4, 8, 8, 8, 5, 2).is_none());
    assert!(Params::init(8, &ok, 0, 256, 4, 8, 8, 8, 5, 2).is_none());
    assert!(Params::init(8, &ok, 2, 1, 4, 8, 8, 8, 5, 2).is_none());
    assert!(Params::init(8, &ok, 2, 256, 0, 8, 8, 8, 5, 2).is_none());
    assert!(Params::init(8, &ok, 2, 256, 4, 8, 8, 0, 5, 2).is_none());
    // 17 is prime, but 16 does not divide 17 - 1 = 16 twice over: no root of order 32.
    assert!(Params::init(16, &vec![17], 2, 4, 4, 8, 8, 8, 5, 2).is_none());
    // A modulus of 29 bits is too large.
    assert!(Params::init(8, &vec![1 << 28], 2, 4, 4, 8, 8, 8, 5, 2).is_none());
    // The plaintext modulus may not exceed the ciphertext modulus.
    assert!(Params::init(8, &vec![17], 2, 18, 4, 8, 8, 8, 5, 2).is_none());
    assert!(Params::init(8, &vec![17], 2, 17, 4, 8, 8, 8, 5, 2).is_some());
}

#[test]
fn find_root_gives_a_root() {
    // Modulo 17 with degree 8: the order of the root must be 16.
    let r = find_root(8, 17).unwrap();
    let mut p = 1u64;
    for _ in 0..8 {
        p = p * r % 17;
    }
    assert_eq!(p, 16);
    // The least base whose candidate is a root is 3: 1 and 2 give 1 and 2, of order 1 and 8.
    assert_eq!(r, 3);
    assert!(find_root(16, 17).is_none());
}

#[test]
fn log2_ceil_values() {
    assert_eq!(log2_ceil(1), 0);
    assert_eq!(log2_ceil(2), 1);
    assert_eq!(log2_ceil(3), 2);
    assert_eq!(log2_ceil(4), 2);
    assert_eq!(log2_ceil(5), 3);
    assert_eq!(log2_ceil(1 << 56), 56);
    assert_eq!(log2_ceil(Q0 * Q1), 56);
}

#[test]
fn transform_round_trip() {
    let params = small_params(16);
    let raw = raw_from(&params, 2, 3, |i| (i as u64).wrapping_mul(0x9e37_79b9_7f4a_7c15));
    let mut ntt = PolyMatrixNTT::zero(&params, 2, 3);
    to_ntt(&params, &mut ntt, &raw);
    for i in 0..ntt.data.len() {
        let n = (i % (2 * 16)) / 16;
        assert!(ntt.data[i] < params.moduli[n]);
    }
    let mut back = PolyMatrixRaw::zero(&params, 2, 3);
    from_ntt(&params, &mut back, &ntt);
    assert_eq!(back.data, raw.data);
}

#[test]
fn transform_of_constant_and_monomial() {
    let params = small_params(8);
    // The constant 5 transforms to 5 everywhere.
    let mut raw = PolyMatrixRaw::zero(&params, 1, 1);
    raw.data[0] = 5;
    let mut ntt = PolyMatrixNTT::zero(&params, 1, 1);
    to_ntt(&params, &mut ntt, &raw);
    assert_eq!(ntt.data, vec![5u64; 16]);
    // The monomial x transforms to the odd powers of the root.
    raw.data[0] = 0;
    raw.data[1] = 1;
    to_ntt(&params, &mut ntt, &raw);
    for n in 0..2 {
        for z in 0..8 {
            assert_eq!(ntt.data[n * 8 + z], pow_mod(&params, params.roots[n], 2 * z as u64 + 1, n));
        }
    }
}

#[test]
fn multiply_is_negacyclic_product() {
    let params = small_params(16);
    let a = raw_from(&params, 1, 1, |i| (i as u64 + 3).wrapping_mul(0x2545_f491_4f6c_dd1d));
    let b = raw_from(&params, 1, 1, |i| (i as u64 + 11).wrapping_mul(0x9e37_79b9_7f4a_7c15));
    let mut a_ntt = PolyMatrixNTT::zero(&params, 1, 1);
    let mut b_ntt = PolyMatrixNTT::zero(&params, 1, 1);
    to_ntt(&params, &mut a_ntt, &a);
    to_ntt(&params, &mut b_ntt, &b);
    let mut c_ntt = PolyMatrixNTT::zero(&params, 1, 1);
    multiply(&params, &mut c_ntt, &a_ntt, &b_ntt);
    let mut c = PolyMatrixRaw::zero(&params, 1, 1);
    from_ntt(&params, &mut c, &c_ntt);
    // Compare against the product computed coefficient by coefficient.
    let n = 16;
    let q = params.modulus;
    let mut want = vec![0u64; n];
    for i in 0..n {
        for j in 0..n {
            let p = ((a.data[i] as u128) * (b.data[j] as u128) % (q as u128)) as u64;
            let k = (i + j) % n;
            if i + j < n {
                want[k] = ((want[k] as u128 + p as u128) % q as u128) as u64;
            } else {
                want[k] = ((want[k] as u128 + (q - p) as u128) % q as u128) as u64;
            }
        }
    }
    assert_eq!(c.data, want);
    // The same product through scalar_multiply.
    let mut d_ntt = PolyMatrixNTT::zero(&params, 1, 1);
    scalar_multiply(&params, &mut d_ntt, &a_ntt, &b_ntt);
    assert_eq!(d_ntt.data, c_ntt.data);
    // And modulo one small modulus, against the helper.
    let small = negacyclic_product(&[1, 2, 0, 0], &[0, 0, 0, 3], 17);
    assert_eq!(small, vec![17 - 6, 0, 0, 3]);
}

#[test]
fn multiply_matrix_shapes() {
    let params = small_params(8);
    // (2 x 3) * (3 x 1) of constants: entries are the dot products.
    let mut a = PolyMatrixRaw::zero(&params, 2, 3);
    let mut b = PolyMatrixRaw::zero(&params, 3, 1);
    for r in 0..2 {
        for c in 0..3 {
            a.data[(r * 3 + c) * 8] = (r * 3 + c + 1) as u64;
        }
    }
    for k in 0..3 {
        b.data[k * 8] = (10 * (k + 1)) as u64;
    }
    let mut a_ntt = PolyMatrixNTT::zero(&params, 2, 3);
    let mut b_ntt = PolyMatrixNTT::zero(&params, 3, 1);
    to_ntt(&params, &mut a_ntt, &a);
    to_ntt(&params, &mut b_ntt, &b);
    let mut c_ntt = PolyMatrixNTT::zero(&params, 2, 1);
    multiply(&params, &mut c_ntt, &a_ntt, &b_ntt);
    let mut c = PolyMatrixRaw::zero(&params, 2, 1);
    from_ntt(&params, &mut c, &c_ntt);
    assert_eq!(c.data[0], 1 * 10 + 2 * 20 + 3 * 30);
    assert_eq!(c.data[8], 4 * 10 + 5 * 20 + 6 * 30);
    for z in 1..8 {
        assert_eq!(c.data[z], 0);
        assert_eq!(c.data[8 + z], 0);
    }
}

#[test]
fn crt_compose_recovers_number() {
    let params = small_params(8);
    for x in [0u64, 1, Q0, Q1, Q0 * Q1 - 1, 123_456_789_012_345] {
        assert_eq!(crt_compose_2(&params, x % Q0, x % Q1), x);
    }
}

#[test]
fn automorph_moves_coefficients() {
    let params = small_params(8);
    let q = params.modulus;
    let mut a = PolyMatrixRaw::zero(&params, 1, 1);
    for i in 0..8 {
        a.data[i] = (i + 1) as u64;
    }
    let mut res = PolyMatrixRaw::zero(&params, 1, 1);
    // x -> x^3 on 1 + 2x + 3x^2 + ... + 8x^7 modulo x^8 + 1:
    // exponents 0,3,6,9,12,15,18,21 -> positions 0,3,6,-1,-4,-7,+2,+5.
    automorph(&params, &mut res, &a, 3);
    assert_eq!(res.data, vec![1, q - 4, 7, 2, q - 5, 8, 3, q - 6]);
    // x -> x^9 = x * x^8: odd coefficients change sign.
    automorph(&params, &mut res, &a, 9);
    assert_eq!(res.data, vec![1, q - 2, 3, q - 4, 5, q - 6, 7, q - 8]);
    // The identity.
    automorph(&params, &mut res, &a, 1);
    assert_eq!(res.data, a.data);
    // Zero stays zero under a sign change.
    let zero = PolyMatrixRaw::zero(&params, 1, 1);
    automorph(&params, &mut res, &zero, 9);
    assert_eq!(res.data, vec![0u64; 8]);
}

#[test]
fn gadget_digits() {
    let params = small_params(8);
    assert_eq!(get_bits_per(&params, 8), 8);
    assert_eq!(get_bits_per(&params, 56), 1);
    assert_eq!(get_bits_per(&params, 4), 15);
    assert_eq!(get_bits_per(&params, 57), 1);
    assert_eq!(digit(0x0123_4567_89ab_cdef, 8, 0), 0xef);
    assert_eq!(digit(0x0123_4567_89ab_cdef, 8, 3), 0x89);
    assert_eq!(digit(0x0123_4567_89ab_cdef, 8, 7), 0x01);
    assert_eq!(digit(0x0123_4567_89ab_cdef, 8, 8), 0);
    assert_eq!(digit(u64::MAX, 57, 1), 0x7f);
    assert_eq!(digit(u64::MAX, 57, 2), 0);
    assert_eq!(digit(u64::MAX, 1, 1000), 0);
}

#[test]
fn gadget_invert_recomposes() {
    let params = small_params(8);
    let inp = raw_from(&params, 2, 1, |i| (i as u64 + 1).wrapping_mul(0x9e37_79b9_7f4a_7c15));
    let mut out = PolyMatrixRaw::zero(&params, 16, 1);
    gadget_invert(&params, &mut out, &inp);
    for j in 0..2 {
        for z in 0..8 {
            let mut sum = 0u64;
            for k in 0..8 {
                let d = out.data[(j + 2 * k) * 8 + z];
                assert!(d < 256);
                sum += d << (8 * k);
            }
            assert_eq!(sum, inp.data[j * 8 + z]);
        }
    }
    // Only the first row.
    let mut first = PolyMatrixRaw::zero(&params, 8, 1);
    gadget_invert_rdim(&params, &mut first, &inp, 1);
    for z in 0..8 {
        let mut sum = 0u64;
        for k in 0..8 {
            sum += first.data[k * 8 + z] << (8 * k);
        }
        assert_eq!(sum, inp.data[z]);
    }
}

#[test]
fn copy_into_places_block() {
    let params = small_params(8);
    let mut big = raw_from(&params, 2, 3, |i| i as u64);
    let small = raw_from(&params, 1, 2, |i| 1000 + i as u64);
    big.copy_into(&params, &small, 1, 1);
    for i in 0..48 {
        let poly = i / 8;
        let want = if poly == 4 || poly == 5 { 1000 + (i - 32) as u64 } else { i as u64 };
        assert_eq!(big.data[i], want);
    }
    let mut one = PolyMatrixRaw::zero(&params, 1, 1);
    one.copy_poly(&params, &big, 1, 2);
    assert_eq!(one.data, (1008..1016).collect::<Vec<u64>>());
}

#[test]
fn packing_and_recentering() {
    assert_eq!(pack_residues(5, 7), 5 | (7 << 32));
    assert_eq!(pack_residues(0xffff_ffff, 0xffff_ffff), u64::MAX);
    assert_eq!(recenter_mod(3, 256, 1000), 3);
    assert_eq!(recenter_mod(128, 256, 1000), 128);
    assert_eq!(recenter_mod(129, 256, 1000), 1000 - 127);
    assert_eq!(recenter_mod(255, 256, 1000), 999);
    assert_eq!(pow2_usize(0), 1);
    assert_eq!(pow2_usize(6), 64);
}

#[test]
fn aligned_memory_is_aligned_and_zero() {
    let mem = AlignedMemory64::new(1000);
    assert_eq!(mem.len(), 1000);
    let slice = mem.as_slice();
    assert_eq!(slice.len(), 1000);
    assert_eq!(slice.as_ptr() as usize % 64, 0);
    for i in 0..1000 {
        assert_eq!(slice[i], 0);
    }
}

#[test]
fn aligned_memory_reads_back_writes() {
    let mut mem: AlignedMemory<32> = AlignedMemory::new(10);
    for i in 0..10 {
        *mem.index_mut(i) = (i * i) as u64;
    }
    for i in 0..10 {
        assert_eq!(*mem.index(i), (i * i) as u64);
    }
    let copy = mem.clone();
    *mem.index_mut(3) = 77;
    assert_eq!(*copy.index(3), 9);
    assert_eq!(copy.as_slice(), &[0, 1, 4, 9, 16, 25, 36, 49, 64, 81]);
    assert_eq!(copy.as_slice().as_ptr() as usize % 32, 0);
    assert_eq!(mem.as_slice().as_ptr() as usize % 32, 0);
    let empty: AlignedMemory<64> = AlignedMemory::new(0);
    assert_eq!(empty.len(), 0);
}

#[test]
fn transform_blocks_match_the_definition() {
    let params = small_params(8);
    let src: Vec<u64> = (0..24u64).map(|i| i * i * 1_000_000_007 + 5).collect();
    for n in 0..2 {
        let q = params.moduli[n] as u128;
        let psi = params.roots[n] as u128;
        let block = forward_block(&params, n, &src, 8);
        assert_eq!(block.len(), 8);
        for z in 0..8u64 {
            let mut sum: u128 = 0;
            for j in 0..8u64 {
                let w = pow_mod(&params, psi as u64, (2 * z + 1) * j, n) as u128;
                sum = (sum + (src[8 + j as usize] as u128 % q) * w) % q;
            }
            assert_eq!(block[z as usize] as u128, sum);
        }
        let psi_inv = params.inv_roots[n];
        let back = inverse_block(&params, n, &block, 0);
        for j in 0..8u64 {
            let mut sum: u128 = 0;
            for z in 0..8u64 {
                let w = pow_mod(&params, psi_inv, (2 * z + 1) * j, n) as u128;
                sum = (sum + block[z as usize] as u128 * w) % q;
            }
            let want = (sum * params.inv_poly_len[n] as u128) % q;
            assert_eq!(back[j as usize] as u128, want);
            assert_eq!(back[j as usize] as u128, src[8 + j as usize] as u128 % q);
        }
    }
}

#[test]
fn power_sums_of_small_inputs() {
    let params = small_params(8);
    // One coefficient: the sum is the coefficient, reduced.
    assert_eq!(power_sums(&params, 0, &vec![Q0 + 9], 1), vec![9]);
    // Two coefficients with w = -1: x0 + x1 and x0 - x1.
    assert_eq!(power_sums(&params, 0, &vec![10, 3], Q0 - 1), vec![13, 7]);
    // Four coefficients with w of order 4.
    let w = pow_mod(&params, params.roots[1], 4, 1);
    assert_eq!(pow_mod(&params, w, 4, 1), 1);
    let x = vec![1u64, 2, 3, 4];
    let got = power_sums(&params, 1, &x, w);
    for z in 0..4u64 {
        let mut sum = 0u64;
        for j in 0..4u64 {
            sum = (sum + x[j as usize] * pow_mod(&params, w, z * j, 1)) % Q1;
        }
        assert_eq!(got[z as usize], sum);
    }
}

#[test]
fn two_powers() {
    for n in [1usize, 2, 4, 1024, 1 << 20] {
        assert!(check_two_power(n));
    }
    for n in [0usize, 3, 6, 12, 1023, (1 << 20) + 2] {
        assert!(!check_two_power(n));
    }
}

#[test]
fn rescale_rounds_the_centered_value() {
    // 0..1000 scaled to 0..10: multiples of 100 map to their digit.
    for d in 0..10u64 {
        assert_eq!(rescale(100 * d, 1000, 10), d);
    }
    // Rounding to the nearest: 149 -> 1, 150 -> 2, 151 -> 2.
    assert_eq!(rescale(149, 1000, 10), 1);
    assert_eq!(rescale(150, 1000, 10), 2);
    assert_eq!(rescale(151, 1000, 10), 2);
    // The upper half is negative: 951 is -49, which rounds to 0; 950 is -50,
    // and halves round away from zero, to -1 = 9; so does 949.
    assert_eq!(rescale(951, 1000, 10), 0);
    assert_eq!(rescale(950, 1000, 10), 9);
    assert_eq!(rescale(949, 1000, 10), 9);
    assert_eq!(rescale(500, 1000, 10), 5);
    assert_eq!(rescale(499, 1000, 10), 5);
    // Inputs are reduced first.
    assert_eq!(rescale(1100, 1000, 10), 1);
    // A plaintext times the scale comes back, with noise on top.
    let q = Q0 * Q1;
    let scale = q / 256;
    for pt in [0u64, 1, 2, 127, 128] {
        assert_eq!(rescale(pt * scale + 12345, q, 256), pt);
        assert_eq!(rescale(pt * scale, q, 256), pt);
    }
    // Negative plaintexts come back as residues.
    assert_eq!(rescale(q - 3 * scale, q, 256), 253);
    assert_eq!(rescale(u64::MAX, u64::MAX, u64::MAX), 0);
    assert_eq!(rescale(5, 1, 1), 0);
}

#[test]
fn calc_index_is_row_major() {
    assert_eq!(calc_index(&[], &[]), 0);
    assert_eq!(calc_index(&[3], &[5]), 3);
    assert_eq!(calc_index(&[1, 2], &[3, 4]), 6);
    assert_eq!(calc_index(&[2, 3], &[3, 4]), 11);
    assert_eq!(calc_index(&[1, 2, 3, 4], &[2, 3, 4, 5]), ((1 * 3 + 2) * 4 + 3) * 5 + 4);
    assert_eq!(calc_index(&[0, 0, 0, 0], &[2, 3, 4, 5]), 0);
    assert_eq!(calc_index(&[1, 2, 3, 4], &[2, 3, 4, 5]), 119);
}

#[test]
fn drawn_words_have_the_asked_length() {
    let mut rng = get_seeded_rng();
    assert_eq!(draw_words(&mut rng, 0).len(), 0);
    let a = draw_words(&mut rng, 64);
    let b = draw_words(&mut rng, 64);
    assert_eq!(a.len(), 64);
    assert_eq!(b.len(), 64);
    // A generator that handed its input back, or stood still, would repeat itself.
    assert_ne!(a, b);
    assert!(a.iter().any(|w| *w != a[0]));
}

fn assert_send_sync<T: Send + Sync>(_: &T) {}

#[test]
fn aligned_memory_can_cross_workers() {
    let mut mem = AlignedMemory64::new(4);
    *mem.index_mut(2) = 9;
    assert_send_sync(&mem);
    let shared = std::sync::Arc::new(mem);
    let other = shared.clone();
    assert_eq!(shared.as_slice()[2], 9);
    assert_eq!(other.as_slice()[2], 9);
}

#[test]
fn aligned_start_skips_to_the_boundary() {
    assert_eq!(aligned_start(0, 64), 0);
    assert_eq!(aligned_start(64, 64), 0);
    assert_eq!(aligned_start(8, 64), 7);
    assert_eq!(aligned_start(56, 64), 1);
    assert_eq!(aligned_start(72, 64), 7);
    assert_eq!(aligned_start(4096 + 16, 32), 2);
    assert_eq!(aligned_start(24, 8), 0);
    assert_eq!(aligned_start(24, 4), 0);
    for addr in (0..2048usize).step_by(8) {
        for align in [8usize, 16, 32, 64, 128] {
            let start = aligned_start(addr, align);
            assert!(start <= align / 8);
            assert_eq!((addr + 8 * start) % align, 0);
        }
    }
}

#[test]
fn layout_fits_asks_for_a_power_of_two_and_room() {
    assert!(layout_fits(64, 0));
    assert!(layout_fits(64, 1000));
    assert!(layout_fits(1, 5));
    assert!(!layout_fits(0, 5));
    assert!(!layout_fits(3, 5));
    assert!(!layout_fits(48, 5));
    let most = (isize::MAX as usize - 64) / 8;
    assert!(layout_fits(64, most));
    assert!(!layout_fits(64, most + 1));
    assert!(!layout_fits(64, usize::MAX));
    assert!(!layout_fits(usize::MAX, 0));
    assert!(!layout_fits(1 << (usize::BITS - 1), 0));
}

#[test]
fn aligned_memory_from_words_and_mutable_slice() {
    let words: Vec<u64> = (0..37u64).map(|i| i * 3 + 1).collect();
    let mut mem: AlignedMemory<64> = AlignedMemory::from_words(&words);
    assert_eq!(mem.len(), 37);
    assert_eq!(mem.as_slice(), &words[..]);
    assert_eq!(mem.as_slice().as_ptr() as usize % 64, 0);
    {
        let slice = mem.as_mut_slice();
        assert_eq!(slice.len(), 37);
        assert_eq!(slice.as_ptr() as usize % 64, 0);
        slice[5] = 500;
        slice[36] = 3600;
    }
    assert_eq!(*mem.index(5), 500);
    assert_eq!(*mem.index(36), 3600);
    assert_eq!(*mem.index(0), 1);
    let copy = mem.clone();
    assert_eq!(copy.as_slice(), mem.as_slice());
    assert_eq!(copy.as_slice().as_ptr() as usize % 64, 0);
    assert_ne!(copy.as_slice().as_ptr(), mem.as_slice().as_ptr());
    let from_slice: AlignedMemory<128> = AlignedMemory::from_slice(&words[3..9]);
    assert_eq!(from_slice.as_slice(), &words[3..9]);
    assert_eq!(from_slice.as_slice().as_ptr() as usize % 128, 0);
    let mut empty: AlignedMemory<64> = AlignedMemory::from_words(&Vec::new());
    assert_eq!(empty.len(), 0);
    assert_eq!(empty.as_mut_slice().len(), 0);
}
