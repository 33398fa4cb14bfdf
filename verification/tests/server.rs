use spiral_rs::aligned_memory::AlignedMemory64;
use spiral_rs::gadget::get_bits_per;
use spiral_rs::params::Params;
use spiral_rs::poly::{
    automorph, from_ntt, scalar_multiply, to_ntt, PolyMatrixNTT, PolyMatrixRaw,
};
use spiral_rs::server::{
    build_db_and_get_item, coefficient_expansion, generate_random_db_and_get_item,
    multiply_reg_by_database, regev_to_gsw, MAX_SUMMED, PACKED_OFFSET_2,
};
use spiral_rs::util::{reorient_reg_ciphertexts, rescale};

const Q0: u64 = 268369921;
const Q1: u64 = 249561089;

fn get_params(poly_len: usize) -> Params {
    // db_dim_1 = 6, db_dim_2 = 2, t_exp_right = 8
    Params::init(poly_len, &vec![Q0, Q1], 2, 256, 4, 8, 8, 8, 6, 2).unwrap()
}

/// A small deterministic generator for the tests.
struct TestRng(u64);

impl TestRng {
    fn next(&mut self) -> u64 {
        self.0 ^= self.0 << 13;
        self.0 ^= self.0 >> 7;
        self.0 ^= self.0 << 17;
        self.0.wrapping_mul(0x2545_f491_4f6c_dd1d)
    }
}

/// A client of the scheme, with secret key `s`: a ciphertext is the column
/// `(a, a * s + e + m)`.
struct Client {
    rng: TestRng,
    s_raw: PolyMatrixRaw,
    s_ntt: PolyMatrixNTT,
    noisy: bool,
}

fn ntt_of(params: &Params, raw: &PolyMatrixRaw) -> PolyMatrixNTT {
    let mut out = PolyMatrixNTT::zero(params, raw.rows, raw.cols);
    to_ntt(params, &mut out, raw);
    out
}

fn raw_of(params: &Params, ntt: &PolyMatrixNTT) -> PolyMatrixRaw {
    let mut out = PolyMatrixRaw::zero(params, ntt.rows, ntt.cols);
    from_ntt(params, &mut out, ntt);
    out
}

fn small_poly(params: &Params, rng: &mut TestRng) -> PolyMatrixRaw {
    let mut p = PolyMatrixRaw::zero(params, 1, 1);
    for z in 0..params.poly_len {
        p.data[z] = match rng.next() % 3 {
            0 => 0,
            1 => 1,
            _ => params.modulus - 1,
        };
    }
    p
}

/// `a * b` for single polynomials in transformed form.
fn mul_poly(params: &Params, a: &PolyMatrixNTT, b: &PolyMatrixNTT) -> PolyMatrixNTT {
    let mut out = PolyMatrixNTT::zero(params, 1, 1);
    scalar_multiply(params, &mut out, a, b);
    out
}

fn add_words(params: &Params, a: &[u64], b: &[u64]) -> Vec<u64> {
    let len = params.poly_len;
    (0..a.len()).map(|i| (a[i] + b[i]) % params.moduli[(i / len) % 2]).collect()
}

fn sub_words(params: &Params, a: &[u64], b: &[u64]) -> Vec<u64> {
    let len = params.poly_len;
    (0..a.len())
        .map(|i| {
            let q = params.moduli[(i / len) % 2];
            (a[i] % q + q - b[i] % q) % q
        })
        .collect()
}

/// The polynomial `-(p * c)` for a number `c`, in coefficient form.
fn neg_scaled(params: &Params, p: &PolyMatrixRaw, c: u64) -> PolyMatrixRaw {
    let q = params.modulus as u128;
    let mut out = PolyMatrixRaw::zero(params, 1, 1);
    for z in 0..params.poly_len {
        let v = (p.data[z] as u128 * (c as u128 % q)) % q;
        out.data[z] = ((q - v) % q) as u64;
    }
    out
}

fn scaled(params: &Params, p: &PolyMatrixRaw, c: u64) -> PolyMatrixRaw {
    let q = params.modulus as u128;
    let mut out = PolyMatrixRaw::zero(params, 1, 1);
    for z in 0..params.poly_len {
        out.data[z] = ((p.data[z] as u128 * (c as u128 % q)) % q) as u64;
    }
    out
}

fn gadget_power(bits: usize, k: usize) -> u64 {
    if bits * k >= 64 {
        0
    } else {
        1u64 << (bits * k)
    }
}

impl Client {
    fn init(params: &Params, seed: u64) -> Client {
        let mut rng = TestRng(seed);
        let s_raw = small_poly(params, &mut rng);
        let s_ntt = ntt_of(params, &s_raw);
        Client { rng, s_raw, s_ntt, noisy: true }
    }

    /// Makes the constant coefficient of the key -1, so that minus the key
    /// times a positive constant has a positive constant coefficient.
    fn with_constant_minus_one(mut self, params: &Params) -> Client {
        self.s_raw.data[0] = params.modulus - 1;
        self.s_ntt = ntt_of(params, &self.s_raw);
        self
    }

    /// A client whose ciphertexts and keys carry no noise.
    fn exact(params: &Params, seed: u64) -> Client {
        let mut client = Client::init(params, seed);
        client.noisy = false;
        client
    }

    fn encrypt_matrix_reg(&mut self, params: &Params, m: &PolyMatrixNTT) -> PolyMatrixNTT {
        let words = 2 * params.poly_len;
        let mut a = PolyMatrixNTT::zero(params, 1, 1);
        for i in 0..words {
            a.data[i] = self.rng.next() % params.moduli[i / params.poly_len];
        }
        let e = if self.noisy {
            ntt_of(params, &small_poly(params, &mut self.rng))
        } else {
            PolyMatrixNTT::zero(params, 1, 1)
        };
        let a_s = mul_poly(params, &a, &self.s_ntt);
        let b = add_words(params, &add_words(params, &a_s.data, &e.data), &m.data);
        let mut ct = PolyMatrixNTT::zero(params, 2, 1);
        ct.data[..words].copy_from_slice(&a.data);
        ct.data[words..].copy_from_slice(&b);
        ct
    }

    fn encrypt_raw(&mut self, params: &Params, m: &PolyMatrixRaw) -> PolyMatrixNTT {
        let m_ntt = ntt_of(params, m);
        self.encrypt_matrix_reg(params, &m_ntt)
    }

    /// Decrypts every column of a two-row matrix.
    fn decrypt_matrix_reg(&self, params: &Params, ct: &PolyMatrixNTT) -> PolyMatrixRaw {
        assert_eq!(ct.rows, 2);
        let words = 2 * params.poly_len;
        let mut out = PolyMatrixNTT::zero(params, 1, ct.cols);
        for c in 0..ct.cols {
            let mut a = PolyMatrixNTT::zero(params, 1, 1);
            a.data.copy_from_slice(&ct.data[c * words..(c + 1) * words]);
            let b = &ct.data[(ct.cols + c) * words..(ct.cols + c + 1) * words];
            let a_s = mul_poly(params, &a, &self.s_ntt);
            let m = sub_words(params, b, &a_s.data);
            out.data[c * words..(c + 1) * words].copy_from_slice(&m);
        }
        raw_of(params, &out)
    }

    /// A `2 x t` key whose column `k` encrypts `-(p * B^k)`.
    fn key_for(&mut self, params: &Params, p: &PolyMatrixRaw, t: usize) -> PolyMatrixNTT {
        let bits = get_bits_per(params, t);
        let mut key = PolyMatrixNTT::zero(params, 2, t);
        for k in 0..t {
            let m = neg_scaled(params, p, gadget_power(bits, k));
            let ct = self.encrypt_raw(params, &m);
            key.copy_into(params, &ct, 0, k);
        }
        key
    }

    /// The expansion key of round `r`: it switches from the key `s(x^t)` to
    /// `s`, where `t = poly_len / 2^r + 1`.
    fn expansion_key(&mut self, params: &Params, r: usize, t_exp: usize) -> PolyMatrixNTT {
        let t = params.poly_len / (1 << r) + 1;
        let mut tau_s = PolyMatrixRaw::zero(params, 1, 1);
        automorph(params, &mut tau_s, &self.s_raw, t);
        self.key_for(params, &tau_s, t_exp)
    }

    /// The conversion key: column `2k` encrypts `s^2 * B^k` and column
    /// `2k + 1` encrypts `-s * B^k`.
    fn conversion_key(&mut self, params: &Params) -> PolyMatrixNTT {
        let t = params.t_conv;
        let bits = get_bits_per(params, t);
        let s_sq = raw_of(params, &mul_poly(params, &self.s_ntt, &self.s_ntt));
        let mut key = PolyMatrixNTT::zero(params, 2, 2 * t);
        for k in 0..t {
            let b = gadget_power(bits, k);
            let even = self.encrypt_raw(params, &scaled(params, &s_sq, b));
            let odd = self.encrypt_raw(params, &neg_scaled(params, &self.s_raw.clone(), b));
            key.copy_into(params, &even, 0, 2 * k);
            key.copy_into(params, &odd, 0, 2 * k + 1);
        }
        key
    }
}

/// The encryptions of `-x^(poly_len - 2^r)`, which is `x^(-2^r)`.
fn get_v_neg1(params: &Params, rounds: usize) -> Vec<PolyMatrixNTT> {
    let mut v = Vec::new();
    for r in 0..rounds {
        let mut ng1 = PolyMatrixRaw::zero(params, 1, 1);
        ng1.data[params.poly_len - (1 << r)] = params.modulus - 1;
        v.push(ntt_of(params, &ng1));
    }
    v
}

fn centered(params: &Params, x: u64) -> i64 {
    let mut val = x as i64;
    if val >= (params.modulus / 2) as i64 {
        val -= params.modulus as i64;
    }
    val
}

fn dec_reg(params: &Params, ct: &PolyMatrixNTT, client: &Client, scale_k: u64) -> u64 {
    let dec = client.decrypt_matrix_reg(params, ct);
    let val = centered(params, dec.data[0]);
    let val_rounded = f64::round(val as f64 / scale_k as f64) as i64;
    if val_rounded == 0 {
        0
    } else {
        1
    }
}

/// Reads the decrypted word at `(t_gsw - 1) * poly_len + poly_len`: the
/// constant coefficient of column `t_gsw`, which encodes a large value when
/// the inputs encrypt the powers of the gadget base.
fn dec_gsw(params: &Params, ct: &PolyMatrixNTT, client: &Client) -> u64 {
    let dec = client.decrypt_matrix_reg(params, ct);
    let idx = (params.t_gsw - 1) * params.poly_len + params.poly_len;
    let val = centered(params, dec.data[idx]);
    if val < 100 {
        0
    } else {
        1
    }
}

fn expansion_setup(
    params: &Params,
    client: &mut Client,
    g: usize,
) -> (Vec<PolyMatrixNTT>, Vec<PolyMatrixNTT>, Vec<PolyMatrixNTT>) {
    let mut v_w_left = Vec::new();
    let mut v_w_right = Vec::new();
    for r in 0..g {
        v_w_left.push(client.expansion_key(params, r, params.t_exp_left));
        v_w_right.push(client.expansion_key(params, r, params.t_exp_right));
    }
    (v_w_left, v_w_right, get_v_neg1(params, g))
}

#[test]
fn coefficient_expansion_is_correct() {
    let params = get_params(2048);
    let v_neg1 = get_v_neg1(&params, 7);
    let mut client = Client::init(&params, 0x1234_5678_9abc_def1);
    let g = 7;
    let stop_round = 4;
    let (v_w_left, v_w_right, _) = expansion_setup(&params, &mut client, g);

    let mut v = Vec::new();
    for _ in 0..(1 << (params.db_dim_1 + 1)) {
        v.push(PolyMatrixNTT::zero(&params, 2, 1));
    }

    let target = 7;
    let scale_k = params.modulus / params.pt_modulus;
    let mut sigma = PolyMatrixRaw::zero(&params, 1, 1);
    sigma.data[target] = scale_k;
    v[0] = client.encrypt_raw(&params, &sigma);
    let test_ct = client.encrypt_raw(&params, &sigma);

    coefficient_expansion(
        &mut v,
        g,
        stop_round,
        &params,
        &v_w_left,
        &v_w_right,
        &v_neg1,
        params.t_gsw * params.db_dim_2,
    );

    assert_eq!(dec_reg(&params, &test_ct, &client, scale_k), 0);

    for i in 0..v.len() {
        if i == target {
            assert_eq!(dec_reg(&params, &v[i], &client, scale_k), 1);
        } else {
            assert_eq!(dec_reg(&params, &v[i], &client, scale_k), 0);
        }
    }
}

#[test]
fn coefficient_expansion_full_depth_scales_every_coefficient() {
    // Without a stop round every position k ends with 2^g times coefficient k.
    let params = get_params(16);
    let mut client = Client::init(&params, 77);
    let g = 4;
    let (v_w_left, v_w_right, v_neg1) = expansion_setup(&params, &mut client, g);
    let scale_k = params.modulus / params.pt_modulus;
    let mut sigma = PolyMatrixRaw::zero(&params, 1, 1);
    for k in 0..16 {
        sigma.data[k] = scale_k * (k as u64 + 1);
    }
    let mut v = Vec::new();
    for _ in 0..16 {
        v.push(PolyMatrixNTT::zero(&params, 2, 1));
    }
    v[0] = client.encrypt_raw(&params, &sigma);
    coefficient_expansion(&mut v, g, 0, &params, &v_w_left, &v_w_right, &v_neg1, 1);
    for k in 0..16 {
        let dec = client.decrypt_matrix_reg(&params, &v[k]);
        let want = (16 * scale_k as u128 * (k as u128 + 1) % params.modulus as u128) as u64;
        let diff = centered(&params, (dec.data[0] + params.modulus - want) % params.modulus);
        assert!(diff.abs() < (1 << 36), "position {} is off by {}", k, diff);
        for z in 1..16 {
            assert!(centered(&params, dec.data[z]).abs() < (1 << 36));
        }
        // every word is reduced
        for i in 0..v[k].data.len() {
            assert!(v[k].data[i] < params.moduli[(i / 16) % 2]);
        }
    }
}

#[test]
fn coefficient_expansion_skips_by_the_stop_rule() {
    let params = get_params(16);
    let mut client = Client::init(&params, 5);
    let g = 3;
    let (v_w_left, v_w_right, v_neg1) = expansion_setup(&params, &mut client, g);
    let mut sigma = PolyMatrixRaw::zero(&params, 1, 1);
    sigma.data[1] = 1 << 40;
    let fresh = client.encrypt_raw(&params, &sigma);
    let marker = client.encrypt_raw(&params, &sigma);

    // Zero rounds change nothing.
    let mut v = vec![fresh.clone(), marker.clone()];
    coefficient_expansion(&mut v, 0, 0, &params, &v_w_left, &v_w_right, &v_neg1, 1);
    assert_eq!(v[0].data, fresh.data);
    assert_eq!(v[1].data, marker.data);

    let run = |rounds: usize, stop: usize, max_bits: usize| {
        let mut v = Vec::new();
        for _ in 0..8 {
            v.push(marker.clone());
        }
        v[0] = fresh.clone();
        coefficient_expansion(
            &mut v,
            rounds,
            stop,
            &params,
            &v_w_left,
            &v_w_right,
            &v_neg1,
            max_bits,
        );
        v
    };
    // Stop round 1: after it (round 2) the odd positions are left alone, so
    // positions 5 and 7, which only round 2 would write, keep the marker.
    let v = run(3, 1, 8);
    assert_eq!(v[5].data, marker.data);
    assert_eq!(v[7].data, marker.data);
    assert_ne!(v[4].data, marker.data);
    assert_ne!(v[6].data, marker.data);
    // Stop round 1 with one bit: round 1 skips the positions 2 and 3. So
    // position 3 is what round 1 put there at position 1, the ciphertext at
    // 1 after round 0 times neg1, and is never expanded.
    let w = run(3, 1, 1);
    let after_round_0 = run(1, 1, 1);
    let mut spread = PolyMatrixNTT::zero(&params, 2, 1);
    scalar_multiply(&params, &mut spread, &v_neg1[1], &after_round_0[1]);
    assert_eq!(w[3].data, spread.data);
    assert_ne!(w[3].data, v[3].data);
    assert_eq!(w[7].data, marker.data);
    assert_ne!(w[2].data, v[2].data);
    // Stop round beyond the last round: nothing is skipped.
    let full = run(3, 9, 0);
    let same = run(3, 0, 1);
    assert_eq!(full.len(), same.len());
    for k in 0..8 {
        assert_eq!(full[k].data, same[k].data);
        assert_ne!(full[k].data, marker.data);
    }
}

/// The inputs that encrypt `m` times the powers of the gadget base, and
/// zero.
fn gsw_inputs(params: &Params, client: &mut Client) -> (Vec<PolyMatrixNTT>, Vec<PolyMatrixNTT>) {
    let bits_per = get_bits_per(params, params.t_gsw);
    let mut v_inp_1 = Vec::new();
    let mut v_inp_0 = Vec::new();
    for i in 0..params.t_gsw {
        let val = 1u64 << (bits_per * i);
        let mut sigma = PolyMatrixRaw::zero(params, 1, 1);
        sigma.data[0] = val % params.modulus;
        v_inp_1.push(client.encrypt_raw(params, &sigma));
        sigma.data[0] = 0;
        v_inp_0.push(client.encrypt_raw(params, &sigma));
    }
    (v_inp_1, v_inp_0)
}

#[test]
fn regev_to_gsw_is_correct() {
    // With eight digits the word that is read lies in a converted column,
    // which decrypts to minus the key times the plaintext. It encodes the
    // plaintext where the key has the constant coefficient -1 and nothing
    // carries noise: the noise of a conversion is far above the threshold.
    let params = Params::init(2048, &vec![Q0, Q1], 2, 256, 4, 8, 8, 8, 6, 1).unwrap();
    let mut client = Client::exact(&params, 0xfeed_beef).with_constant_minus_one(&params);
    let v = client.conversion_key(&params);
    let bits_per = get_bits_per(&params, params.t_gsw);
    let (v_inp_1, v_inp_0) = gsw_inputs(&params, &mut client);

    let mut v_gsw = Vec::new();
    v_gsw.push(PolyMatrixNTT::zero(&params, 2, 2 * params.t_gsw));

    regev_to_gsw(&mut v_gsw, &v_inp_1, &v, &params, 1, 0);

    assert_eq!(dec_gsw(&params, &v_gsw[0], &client), 1);
    // the word is exactly the gadget power of the column pair
    let dec = client.decrypt_matrix_reg(&params, &v_gsw[0]);
    let at = (params.t_gsw - 1) * params.poly_len + params.poly_len;
    assert_eq!(dec.data[at], 1u64 << (bits_per * (params.t_gsw / 2)));

    regev_to_gsw(&mut v_gsw, &v_inp_0, &v, &params, 1, 0);

    assert_eq!(dec_gsw(&params, &v_gsw[0], &client), 0);
    let dec = client.decrypt_matrix_reg(&params, &v_gsw[0]);
    assert_eq!(dec.data, vec![0u64; 2 * params.t_gsw * params.poly_len]);
}

#[test]
fn regev_to_gsw_is_correct_with_noise() {
    // With nine digits the word that is read lies in a copied column, where
    // the noise is that of a fresh ciphertext.
    let params = Params::init(2048, &vec![Q0, Q1], 2, 256, 4, 8, 8, 9, 6, 1).unwrap();
    let mut client = Client::init(&params, 0xfeed_beef);
    let v = client.conversion_key(&params);
    let bits_per = get_bits_per(&params, params.t_gsw);
    let (v_inp_1, v_inp_0) = gsw_inputs(&params, &mut client);

    let mut v_gsw = Vec::new();
    v_gsw.push(PolyMatrixNTT::zero(&params, 2, 2 * params.t_gsw));

    regev_to_gsw(&mut v_gsw, &v_inp_1, &v, &params, 1, 0);
    assert_eq!(dec_gsw(&params, &v_gsw[0], &client), 1);

    // Column 2j + 1 is the input itself; column 2j decrypts to -s * 2^(bits * j)
    // up to the noise of the input times the key and the noise of the
    // conversion key times the digits. Key and noise have coefficients of
    // at most 1 in absolute value.
    let base_conv = 1i64 << get_bits_per(&params, params.t_conv);
    let len = params.poly_len as i64;
    let slack = len + 2 * (params.t_conv as i64) * len * base_conv;
    let words = 2 * params.poly_len;
    let dec = client.decrypt_matrix_reg(&params, &v_gsw[0]);
    for j in 0..params.t_gsw {
        for row in 0..2 {
            let at = (row * 2 * params.t_gsw + 2 * j + 1) * words;
            assert_eq!(
                v_gsw[0].data[at..at + words],
                v_inp_1[j].data[row * words..(row + 1) * words]
            );
        }
        let want = neg_scaled(&params, &client.s_raw, (1u64 << (bits_per * j)) % params.modulus);
        for z in 0..params.poly_len {
            let got = dec.data[2 * j * params.poly_len + z];
            let diff = centered(&params, (got + params.modulus - want.data[z]) % params.modulus);
            assert!(diff.abs() <= slack, "column {} is off by {}", 2 * j, diff);
        }
    }

    regev_to_gsw(&mut v_gsw, &v_inp_0, &v, &params, 1, 0);
    assert_eq!(dec_gsw(&params, &v_gsw[0], &client), 0);

    // Every word that was written lies below the modulus of its residue.
    for (at, word) in v_gsw[0].data.iter().enumerate() {
        assert!(*word < params.moduli[(at / params.poly_len) % 2]);
    }
}

#[test]
fn regev_to_gsw_uses_factor_and_offset() {
    let params = Params::init(8, &vec![Q0, Q1], 2, 256, 2, 8, 8, 3, 6, 2).unwrap();
    let mut client = Client::init(&params, 31);
    let v = client.conversion_key(&params);
    let mut v_inp = Vec::new();
    for k in 0..14 {
        let mut sigma = PolyMatrixRaw::zero(&params, 1, 1);
        sigma.data[0] = k as u64;
        v_inp.push(client.encrypt_raw(&params, &sigma));
    }
    let untouched = PolyMatrixNTT::zero(&params, 2, 6);
    let mut v_gsw = vec![untouched.clone(), untouched.clone(), untouched.clone()];
    regev_to_gsw(&mut v_gsw, &v_inp, &v, &params, 2, 3);
    let words = 2 * params.poly_len;
    for i in 0..2 {
        for j in 0..3 {
            let src = &v_inp[2 * (i * 3 + j) + 3];
            for row in 0..2 {
                let at = (row * 6 + 2 * j + 1) * words;
                assert_eq!(v_gsw[i].data[at..at + words], src.data[row * words..(row + 1) * words]);
            }
        }
    }
    assert_eq!(v_gsw[2].data, untouched.data);
}

fn first_dim_by_definition(
    params: &Params,
    db: &[u64],
    v: &[u64],
    dim0: usize,
    num_per: usize,
    i: usize,
    row: usize,
    n: usize,
    z: usize,
) -> u64 {
    let q = params.moduli[n] as u128;
    let part = |w: u64| -> u128 {
        if n == 0 {
            (w & 0xffff_ffff) as u128
        } else {
            (w >> PACKED_OFFSET_2) as u128
        }
    };
    let mut sum: u128 = 0;
    for k in 0..dim0 {
        let a = part(v[z * dim0 * 2 + 2 * k + row]);
        let b = part(db[z * num_per * dim0 + i * dim0 + k]);
        sum = (sum + a * b) % q;
    }
    sum as u64
}

#[test]
fn multiply_reg_by_database_is_correct() {
    let params = get_params(2048);
    let mut seeded_rng = TestRng(0xabcdef);

    let dim0 = 1 << params.db_dim_1;
    let num_per = 1 << params.db_dim_2;
    let scale_k = params.modulus / params.pt_modulus;

    let target_idx = seeded_rng.next() as usize % (dim0 * num_per);
    let target_idx_dim0 = target_idx / num_per;
    let target_idx_num_per = target_idx % num_per;

    let mut client = Client::init(&params, 0x5eed);

    let (corr_item, db) = generate_random_db_and_get_item(&params, target_idx);

    let mut v_reg = Vec::new();
    for i in 0..dim0 {
        let val = if i == target_idx_dim0 { scale_k } else { 0 };
        let mut sigma = PolyMatrixRaw::zero(&params, 1, 1);
        sigma.data[0] = val;
        v_reg.push(client.encrypt_raw(&params, &sigma));
    }

    let v_reg_sz = dim0 * 2 * params.poly_len;
    let mut v_reg_reoriented = AlignedMemory64::new(v_reg_sz);
    reorient_reg_ciphertexts(&params, v_reg_reoriented.as_mut_slice(), &v_reg);

    let mut out = Vec::with_capacity(num_per);
    for _ in 0..dim0 {
        out.push(PolyMatrixNTT::zero(&params, 2, 1));
    }
    multiply_reg_by_database(
        &mut out,
        db.as_slice(),
        v_reg_reoriented.as_slice(),
        &params,
        dim0,
        num_per,
    );

    // decrypt
    let dec = client.decrypt_matrix_reg(&params, &out[target_idx_num_per]);
    let mut dec_rescaled = PolyMatrixRaw::zero(&params, 1, 1);
    for z in 0..params.poly_len {
        dec_rescaled.data[z] = rescale(dec.data[z], params.modulus, params.pt_modulus);
    }

    for z in 0..params.poly_len {
        assert_eq!(dec_rescaled.data[z], corr_item.data[z]);
    }
}

#[test]
fn multiply_reg_by_database_matches_definition() {
    let params = get_params(8);
    let dim0 = 64;
    let num_per = 3;
    assert!(dim0 * 2 >= MAX_SUMMED);
    let mut rng = TestRng(99);
    // Residues anywhere below twice the modulus.
    let mut word = |rng: &mut TestRng| -> u64 {
        let lo = rng.next() % (2 * Q0);
        let hi = rng.next() % (2 * Q1);
        lo | (hi << 32)
    };
    let v: Vec<u64> = (0..8 * dim0 * 2).map(|_| word(&mut rng)).collect();
    let db: Vec<u64> = (0..8 * num_per * dim0).map(|_| word(&mut rng)).collect();
    let marker = PolyMatrixNTT::zero(&params, 2, 1);
    let mut out = Vec::new();
    for _ in 0..5 {
        let mut m = marker.clone();
        m.data[3] = 12345;
        out.push(m);
    }
    multiply_reg_by_database(&mut out, &db, &v, &params, dim0, num_per);
    for i in 0..num_per {
        for row in 0..2 {
            for n in 0..2 {
                for z in 0..8 {
                    let got = out[i].data[row * 16 + n * 8 + z];
                    assert!(got < params.moduli[n]);
                    assert_eq!(
                        got,
                        first_dim_by_definition(&params, &db, &v, dim0, num_per, i, row, n, z)
                    );
                }
            }
        }
    }
    // Outputs beyond num_per are left alone.
    assert_eq!(out[3].data[3], 12345);
    assert_eq!(out[4].data[3], 12345);
    // The same inputs give the same outputs.
    let mut again = Vec::new();
    for _ in 0..5 {
        again.push(marker.clone());
    }
    multiply_reg_by_database(&mut again, &db, &v, &params, dim0, num_per);
    for i in 0..num_per {
        assert_eq!(again[i].data, out[i].data);
    }
}

#[test]
fn multiply_reg_by_database_extreme_residues() {
    // Every residue at its largest allowed value: the sums must not overflow.
    let params = get_params(8);
    let dim0 = 32;
    let w = (2 * Q0 - 1) | ((2 * Q1 - 1) << 32);
    let v = vec![w; 8 * dim0 * 2];
    let db = vec![w; 8 * dim0];
    let mut out = vec![PolyMatrixNTT::zero(&params, 2, 1)];
    multiply_reg_by_database(&mut out, &db, &v, &params, dim0, 1);
    let want0 = ((2 * Q0 as u128 - 1) * (2 * Q0 as u128 - 1) * 32 % Q0 as u128) as u64;
    let want1 = ((2 * Q1 as u128 - 1) * (2 * Q1 as u128 - 1) * 32 % Q1 as u128) as u64;
    for row in 0..2 {
        for z in 0..8 {
            assert_eq!(out[0].data[row * 16 + z], want0);
            assert_eq!(out[0].data[row * 16 + 8 + z], want1);
        }
    }
}

#[test]
fn reorient_packs_reduced_residues() {
    let params = Params::init(8, &vec![Q0, Q1], 2, 256, 4, 8, 8, 8, 1, 1).unwrap();
    let mut a = PolyMatrixNTT::zero(&params, 2, 1);
    let mut b = PolyMatrixNTT::zero(&params, 2, 1);
    for i in 0..32 {
        a.data[i] = 100 + i as u64;
        b.data[i] = Q0 + Q1 + i as u64;
    }
    let v_reg = vec![a, b, PolyMatrixNTT::zero(&params, 2, 1)];
    let mut out = vec![7u64; 8 * 2 * 2 + 3];
    reorient_reg_ciphertexts(&params, out.as_mut_slice(), &v_reg);
    for z in 0..8 {
        for k in 0..2 {
            for row in 0..2 {
                let src = &v_reg[k].data;
                let lo = src[row * 16 + z] % Q0;
                let hi = src[row * 16 + 8 + z] % Q1;
                assert_eq!(out[z * 4 + 2 * k + row], lo | (hi << 32));
            }
        }
    }
    assert_eq!(out[32..], [7, 7, 7]);
}

#[test]
fn database_from_given_words() {
    let params = Params::init(8, &vec![Q0, Q1], 1, 256, 4, 8, 8, 8, 1, 1).unwrap();
    // one matrix entry, 2 x 2 items, 8 coefficients each
    let words: Vec<u64> = (0..32u64).map(|k| k * 1_000_003 + 200).collect();
    let item_idx = 2;
    let (item, db) = build_db_and_get_item(&params, item_idx, &words);
    assert_eq!(item.rows, 1);
    assert_eq!(item.cols, 1);
    assert_eq!(db.len(), 32);
    let plain = |k: usize| (words[k] % params.modulus) % 256;
    for z in 0..8 {
        assert_eq!(item.data[z], plain(item_idx * 8 + z));
    }
    // Item i = j * num_per + ii lies at [z, ii, j].
    for i in 0..4 {
        let (ii, j) = (i % 2, i / 2);
        let mut raw = PolyMatrixRaw::zero(&params, 1, 1);
        for z in 0..8 {
            let p = plain(i * 8 + z);
            raw.data[z] = if p > 128 { p + params.modulus - 256 } else { p };
        }
        let ntt = ntt_of(&params, &raw);
        for z in 0..8 {
            assert_eq!(db[(z * 2 + ii) * 2 + j], ntt.data[z] | (ntt.data[8 + z] << 32));
        }
    }
    // An index past the last item leaves the item zero.
    let (none, same_db) = build_db_and_get_item(&params, 4, &words);
    assert_eq!(none.data, vec![0u64; 8]);
    assert_eq!(same_db, db);
}

#[test]
fn random_database_has_the_stated_shape() {
    let params = Params::init(8, &vec![Q0, Q1], 2, 256, 4, 8, 8, 8, 2, 1).unwrap();
    let (item, db) = generate_random_db_and_get_item(&params, 5);
    assert_eq!(item.rows, 2);
    assert_eq!(item.cols, 2);
    assert_eq!(item.data.len(), 4 * 8);
    assert_eq!(db.len(), 4 * 8 * 8);
    for x in &item.data {
        assert!(*x < 256);
    }
    for w in &db {
        assert!((w & 0xffff_ffff) < Q0);
        assert!((w >> 32) < Q1);
    }
    // The item is where the database says: entry (0, 0) of item 5 = (j 2, ii 1).
    let mut raw = PolyMatrixRaw::zero(&params, 1, 1);
    for z in 0..8 {
        let p = item.data[z];
        raw.data[z] = if p > 128 { p + params.modulus - 256 } else { p };
    }
    let ntt = ntt_of(&params, &raw);
    for z in 0..8 {
        assert_eq!(db[(z * 2 + 1) * 4 + 2], ntt.data[z] | (ntt.data[8 + z] << 32));
    }
}

#[test]
fn expansion_without_noise_is_exact() {
    // Without noise the ciphertext at the target decrypts to exactly 2^g
    // times the scale, and every other one to exactly zero.
    let params = get_params(16);
    let mut client = Client::exact(&params, 2024);
    let g = 4;
    let (v_w_left, v_w_right, v_neg1) = expansion_setup(&params, &mut client, g);
    let scale_k = params.modulus / params.pt_modulus;
    for target in [0usize, 1, 6, 15] {
        let mut sigma = PolyMatrixRaw::zero(&params, 1, 1);
        sigma.data[target] = scale_k;
        let mut v = Vec::new();
        for _ in 0..16 {
            v.push(PolyMatrixNTT::zero(&params, 2, 1));
        }
        v[0] = client.encrypt_raw(&params, &sigma);
        coefficient_expansion(&mut v, g, 0, &params, &v_w_left, &v_w_right, &v_neg1, 1);
        for k in 0..16 {
            let dec = client.decrypt_matrix_reg(&params, &v[k]);
            let mut want = vec![0u64; 16];
            if k == target {
                want[0] = ((16u128 * scale_k as u128) % params.modulus as u128) as u64;
            }
            assert_eq!(dec.data, want, "target {} position {}", target, k);
        }
    }
}

#[test]
fn expansion_without_noise_under_the_stop_rule() {
    // With stop round 1 of 3 rounds the odd positions stop at level 2: the
    // target 3 ends with 4 times the scale, the even target 6 with 8 times;
    // the odd positions 5 and 7 are never written.
    let params = get_params(16);
    let mut client = Client::exact(&params, 99);
    let g = 3;
    let (v_w_left, v_w_right, v_neg1) = expansion_setup(&params, &mut client, g);
    let scale_k = params.modulus / params.pt_modulus;
    let mut marker = PolyMatrixNTT::zero(&params, 2, 1);
    marker.data[5] = 4242;
    for (target, factor) in [(3usize, 4u64), (6, 8), (0, 8), (1, 4)] {
        let mut sigma = PolyMatrixRaw::zero(&params, 1, 1);
        sigma.data[target] = scale_k;
        let mut v = Vec::new();
        for _ in 0..8 {
            v.push(marker.clone());
        }
        v[0] = client.encrypt_raw(&params, &sigma);
        coefficient_expansion(&mut v, g, 1, &params, &v_w_left, &v_w_right, &v_neg1, 8);
        for k in 0..8 {
            if k == 5 || k == 7 {
                assert_eq!(v[k].data, marker.data);
                continue;
            }
            let dec = client.decrypt_matrix_reg(&params, &v[k]);
            let want = if k == target { factor * scale_k } else { 0 };
            assert_eq!(dec.data[0], want, "target {} position {}", target, k);
        }
    }
}

#[test]
fn conversion_without_noise_is_exact() {
    // Column 2j + 1 decrypts to the plaintext of input j and column 2j to
    // minus the key times that plaintext.
    let params = Params::init(16, &vec![Q0, Q1], 2, 256, 4, 8, 8, 8, 6, 1).unwrap();
    let mut client = Client::exact(&params, 7);
    let key = client.conversion_key(&params);
    let bits_per = get_bits_per(&params, params.t_gsw);
    let mut v_inp = Vec::new();
    let mut plain = Vec::new();
    for j in 0..params.t_gsw {
        let mut sigma = PolyMatrixRaw::zero(&params, 1, 1);
        sigma.data[0] = (1u64 << (bits_per * j)) % params.modulus;
        sigma.data[3] = 17 + j as u64;
        v_inp.push(client.encrypt_raw(&params, &sigma));
        plain.push(sigma);
    }
    let mut v_gsw = vec![PolyMatrixNTT::zero(&params, 2, 2 * params.t_gsw)];
    regev_to_gsw(&mut v_gsw, &v_inp, &key, &params, 1, 0);
    let dec = client.decrypt_matrix_reg(&params, &v_gsw[0]);
    for j in 0..params.t_gsw {
        let copied = &dec.data[(2 * j + 1) * 16..(2 * j + 2) * 16];
        assert_eq!(copied, &plain[j].data[..]);
        let minus_s_mu = raw_of(
            &params,
            &mul_poly(
                &params,
                &ntt_of(&params, &neg_scaled(&params, &client.s_raw, 1)),
                &ntt_of(&params, &plain[j]),
            ),
        );
        let converted = &dec.data[2 * j * 16..(2 * j + 1) * 16];
        assert_eq!(converted, &minus_s_mu.data[..]);
    }
}

#[test]
fn retrieval_without_noise_is_exact() {
    let params = Params::init(16, &vec![Q0, Q1], 1, 256, 4, 8, 8, 8, 5, 1).unwrap();
    let mut client = Client::exact(&params, 11);
    let dim0 = 32;
    let num_per = 2;
    let scale_k = params.modulus / params.pt_modulus;
    let words: Vec<u64> = {
        let mut rng = TestRng(5);
        (0..dim0 * num_per * 16).map(|_| rng.next()).collect()
    };
    for (k0, i) in [(0usize, 0usize), (31, 1), (17, 0)] {
        let item_idx = k0 * num_per + i;
        let (item, db) = build_db_and_get_item(&params, item_idx, &words);
        let mut v_reg = Vec::new();
        for k in 0..dim0 {
            let mut sigma = PolyMatrixRaw::zero(&params, 1, 1);
            sigma.data[0] = if k == k0 { scale_k } else { 0 };
            v_reg.push(client.encrypt_raw(&params, &sigma));
        }
        let mut flat = vec![0u64; dim0 * 2 * 16];
        reorient_reg_ciphertexts(&params, flat.as_mut_slice(), &v_reg);
        let mut out = vec![PolyMatrixNTT::zero(&params, 2, 1); num_per];
        multiply_reg_by_database(&mut out, &db, &flat, &params, dim0, num_per);
        let dec = client.decrypt_matrix_reg(&params, &out[i]);
        for z in 0..16 {
            assert_eq!(rescale(dec.data[z], params.modulus, params.pt_modulus), item.data[z]);
            // without noise the decryption is the scaled plaintext itself
            let p = item.data[z];
            let centered = if p > 128 { p + params.modulus - 256 } else { p };
            let want = (scale_k as u128 * centered as u128 % params.modulus as u128) as u64;
            assert_eq!(dec.data[z], want);
        }
    }
}

#[test]
fn expansion_noise_stays_within_the_budget() {
    // With noise of at most 1 in the query and in the keys, every level
    // doubles the noise and adds at most t * poly_len * 2^bits: after g
    // rounds the coefficients are off by at most 2^g + (2^g - 1) * step.
    let params = get_params(2048);
    let mut client = Client::init(&params, 77);
    let g = 4;
    let (v_w_left, v_w_right, v_neg1) = expansion_setup(&params, &mut client, g);
    let scale_k = params.modulus / params.pt_modulus;
    let len = params.poly_len as i64;
    let step_left =
        (params.t_exp_left as i64) * len * (1i64 << get_bits_per(&params, params.t_exp_left));
    let step_right =
        (params.t_exp_right as i64) * len * (1i64 << get_bits_per(&params, params.t_exp_right));
    let step = step_left.max(step_right);
    let budget = (1i64 << g) + ((1i64 << g) - 1) * step;
    assert!(2 * budget < scale_k as i64);

    let target = 11;
    let mut sigma = PolyMatrixRaw::zero(&params, 1, 1);
    sigma.data[target] = scale_k;
    let mut v = Vec::new();
    for _ in 0..(1 << g) {
        v.push(PolyMatrixNTT::zero(&params, 2, 1));
    }
    v[0] = client.encrypt_raw(&params, &sigma);
    coefficient_expansion(&mut v, g, 0, &params, &v_w_left, &v_w_right, &v_neg1, 1);

    let mut some_noise = false;
    for k in 0..(1 << g) {
        let dec = client.decrypt_matrix_reg(&params, &v[k]);
        for z in 0..params.poly_len {
            let want = if k == target && z == 0 { (1u64 << g) * scale_k } else { 0 };
            let off = centered(&params, (dec.data[z] + params.modulus - want) % params.modulus);
            assert!(off.abs() <= budget, "position {} coefficient {} is off by {}", k, z, off);
            some_noise = some_noise || off != 0;
        }
        assert_eq!(dec_reg(&params, &v[k], &client, scale_k), (k == target) as u64);
    }
    assert!(some_noise);
}
