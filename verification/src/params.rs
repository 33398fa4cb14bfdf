//! The parameter set of one deployment and its validity.

use vstd::prelude::*;
use vstd::arithmetic::div_mod::*;
use vstd::arithmetic::power::*;
use vstd::arithmetic::power2::*;
use crate::arith::{barrett_ratio, barrett_ratio_of, mul_mod_raw, pow_mod_raw};

verus! {

/// Parameters of the scheme, fixed per deployment and read-only afterwards.
///
/// The ciphertext modulus is the product of `crt_count` word-sized moduli.
/// For each of them the structure carries what the transforms need: the
/// Barrett constant, a `2 * poly_len`-th root of unity with its inverse, and
/// the inverse of `poly_len`.
#[derive(Clone, Debug)]
pub struct Params {
    /// Degree of the polynomial ring.
    pub poly_len: usize,
    /// Number of word-sized moduli (one or two).
    pub crt_count: usize,
    /// The word-sized moduli.
    pub moduli: Vec<u64>,
    /// `floor(2^64 / moduli[n])`.
    pub barrett_cr_1: Vec<u64>,
    /// The ciphertext modulus: the product of `moduli`.
    pub modulus: u64,
    /// The least `l` with `modulus <= 2^l`.
    pub modulus_log2: u64,
    /// For each modulus a root `w` with `w^poly_len = -1`.
    pub roots: Vec<u64>,
    /// The inverses of `roots`.
    pub inv_roots: Vec<u64>,
    /// The inverses of `poly_len`.
    pub inv_poly_len: Vec<u64>,
    /// The inverse of `moduli[0]` modulo `moduli[1]` (unused with one modulus).
    pub crt_inv: u64,
    /// The plaintext modulus.
    pub pt_modulus: u64,
    /// Side length of the plaintext matrix of one database item.
    pub n: usize,
    /// Gadget dimension of the conversion key.
    pub t_conv: usize,
    /// Gadget dimension of the left expansion keys.
    pub t_exp_left: usize,
    /// Gadget dimension of the right expansion keys.
    pub t_exp_right: usize,
    /// Gadget dimension of GSW ciphertexts.
    pub t_gsw: usize,
    /// Log-size of the first database dimension.
    pub db_dim_1: usize,
    /// Log-size of the second database dimension.
    pub db_dim_2: usize,
}

impl Params {
    /// The `n`-th word-sized modulus.
    pub open spec fn q(&self, n: int) -> int {
        self.moduli@[n] as int
    }

    /// Number of words of one polynomial in transformed form.
    pub open spec fn num_words(&self) -> int {
        self.crt_count * self.poly_len
    }

    /// Number of words of one polynomial in transformed form.
    pub fn words(&self) -> (w: usize)
        requires
            self.wf(),
        ensures
            w == self.num_words(),
            self.poly_len <= w <= 0x2000_0000,
    {
        assert(self.poly_len <= self.crt_count * self.poly_len <= 0x2000_0000) by (nonlinear_arith)
            requires
                1 <= self.crt_count <= 2,
                1 <= self.poly_len < 0x1000_0000,
        ;
        self.crt_count * self.poly_len
    }

    /// What must hold of the data kept for the `n`-th modulus.
    pub open spec fn residue_wf(&self, n: int) -> bool {
        &&& 2 <= self.q(n) < 0x1000_0000
        &&& self.barrett_cr_1@[n] as int == barrett_ratio(self.moduli@[n])
        &&& (self.roots@[n] as int) < self.q(n)
        &&& (self.inv_roots@[n] as int) < self.q(n)
        &&& (self.inv_poly_len@[n] as int) < self.q(n)
        &&& pow(self.roots@[n] as int, self.poly_len as nat) % self.q(n) == self.q(n) - 1
        &&& ((self.roots@[n] as int) * (self.inv_roots@[n] as int)) % self.q(n) == 1
        &&& ((self.poly_len as int) * (self.inv_poly_len@[n] as int)) % self.q(n) == 1
    }

    /// Validity of a parameter set.
    pub open spec fn wf(&self) -> bool {
        &&& 1 <= self.poly_len < 0x1000_0000
        &&& is_two_power(self.poly_len as int)
        &&& 1 <= self.crt_count <= 2
        &&& self.moduli@.len() == self.crt_count
        &&& self.barrett_cr_1@.len() == self.crt_count
        &&& self.roots@.len() == self.crt_count
        &&& self.inv_roots@.len() == self.crt_count
        &&& self.inv_poly_len@.len() == self.crt_count
        &&& self.residue_wf(0)
        &&& self.crt_count == 2 ==> self.residue_wf(1)
        &&& self.crt_count == 1 ==> self.modulus as int == self.q(0)
        &&& self.crt_count == 2 ==> {
            &&& self.modulus as int == self.q(0) * self.q(1)
            &&& (self.crt_inv as int) < self.q(1)
            &&& (self.q(0) * (self.crt_inv as int)) % self.q(1) == 1
        }
        &&& self.modulus_log2 <= 56
        &&& self.modulus as int <= pow2(self.modulus_log2 as nat)
        &&& (pow2(self.modulus_log2 as nat) as int) < 2 * (self.modulus as int)
        &&& 2 <= self.pt_modulus <= self.modulus
        &&& self.n >= 1
        &&& self.t_conv >= 1
        &&& self.t_exp_left >= 1
        &&& self.t_exp_right >= 1
        &&& self.t_gsw >= 1
    }
}

/// Whether `n` is a power of two.
pub open spec fn is_two_power(n: int) -> bool
    decreases n,
{
    if n <= 1 {
        n == 1
    } else {
        n % 2 == 0 && is_two_power(n / 2)
    }
}

/// Whether `n` is a power of two.
pub fn check_two_power(n: usize) -> (res: bool)
    ensures
        res == is_two_power(n as int),
{
    let mut m: usize = n;
    while m > 1 && m % 2 == 0
        invariant
            is_two_power(m as int) == is_two_power(n as int),
        decreases m,
    {
        m = m / 2;
    }
    m == 1
}

/// `r^poly_len` is `-1` modulo `q`: `r` is a root of unity of order
/// `2 * poly_len` when `poly_len` is a power of two.
pub open spec fn is_root(r: int, poly_len: int, q: int) -> bool {
    pow(r, poly_len as nat) % q == q - 1
}

/// The candidate for a root that the base `x` gives.
pub open spec fn candidate_root(x: int, poly_len: int, q: int) -> int {
    pow(x, ((q - 1) / (2 * poly_len)) as nat) % q
}

/// The Fermat candidate for the inverse of `x` modulo `q`.
pub open spec fn fermat_inverse(x: int, q: int) -> int {
    pow(x, (q - 2) as nat) % q
}

/// `x` times its Fermat candidate is one modulo `q`, as it is for a prime
/// `q` that does not divide `x`.
pub open spec fn has_fermat_inverse(x: int, q: int) -> bool {
    (x * fermat_inverse(x, q)) % q == 1
}

/// Some base below `q` gives a root.
pub open spec fn has_root(poly_len: int, q: int) -> bool {
    exists|x: int| 1 <= x < q && is_root(#[trigger] candidate_root(x, poly_len, q), poly_len, q)
}

/// The inverse of a root `r` is `r^(2 * poly_len - 1)`.
pub proof fn lemma_root_inverse(r: int, poly_len: int, q: int)
    requires
        q >= 2,
        poly_len >= 1,
        is_root(r, poly_len, q),
    ensures
        (r * (pow(r, (2 * poly_len - 1) as nat) % q)) % q == 1,
{
    let half: int = pow(r, poly_len as nat);
    lemma_pow_adds(r, 1, (2 * poly_len - 1) as nat);
    lemma_pow1(r);
    lemma_pow_adds(r, poly_len as nat, poly_len as nat);
    assert(r * pow(r, (2 * poly_len - 1) as nat) == half * half);
    lemma_mul_mod_noop_right(r, pow(r, (2 * poly_len - 1) as nat), q);
    lemma_mul_mod_noop(half, half, q);
    assert((q - 1) * (q - 1) == q * (q - 2) + 1) by (nonlinear_arith);
    lemma_fundamental_div_mod_converse((q - 1) * (q - 1), q, q - 2, 1);
}

/// The root of unity that the least suitable base gives, if any base below
/// `q` gives one.
pub fn find_root(poly_len: usize, q: u64) -> (res: Option<u64>)
    requires
        1 <= poly_len < 0x1000_0000,
        2 <= q < 0x1000_0000,
    ensures
        res is Some <==> has_root(poly_len as int, q as int),
        res matches Some(r) ==> r < q && is_root(r as int, poly_len as int, q as int) && exists|
            x: int,
        |
            1 <= x < q && r as int == #[trigger] candidate_root(x, poly_len as int, q as int)
                && forall|y: int|
                1 <= y < x ==> !is_root(
                    #[trigger] candidate_root(y, poly_len as int, q as int),
                    poly_len as int,
                    q as int,
                ),
{
    let ratio: u64 = barrett_ratio_of(q);
    let e: u64 = (q - 1) / (2 * (poly_len as u64));
    let mut x: u64 = 1;
    while x < q
        invariant
            1 <= poly_len < 0x1000_0000,
            2 <= q < 0x1000_0000,
            ratio as int == barrett_ratio(q),
            e as int == (q - 1) / (2 * poly_len),
            1 <= x <= q,
            forall|y: int|
                1 <= y < x ==> !is_root(
                    #[trigger] candidate_root(y, poly_len as int, q as int),
                    poly_len as int,
                    q as int,
                ),
        decreases q - x,
    {
        let r: u64 = pow_mod_raw(x, e, q, ratio);
        let top: u64 = pow_mod_raw(r, poly_len as u64, q, ratio);
        if top == q - 1 {
            assert(r as int == candidate_root(x as int, poly_len as int, q as int));
            return Some(r);
        }
        x += 1;
    }
    None
}

/// The least `l` with `x <= 2^l`.
pub fn log2_ceil(x: u64) -> (res: u64)
    requires
        1 <= x <= 0x100_0000_0000_0000,
    ensures
        res <= 56,
        x as int <= pow2(res as nat),
        (pow2(res as nat) as int) < 2 * (x as int),
{
    let mut l: u64 = 0;
    let mut p: u64 = 1;
    proof {
        lemma2_to64();
        lemma2_to64_rest();
    }
    while p < x
        invariant
            1 <= x <= 0x100_0000_0000_0000,
            p as int == pow2(l as nat),
            p >= 1,
            l <= 56,
            p < 2 * x,
            pow2(56) == 0x100_0000_0000_0000,
        decreases 56 - l,
    {
        proof {
            lemma_pow2_unfold((l + 1) as nat);
            if l >= 56 {
                lemma_pow2_strictly_increases(56, (l + 1) as nat);
            }
        }
        p = 2 * p;
        l += 1;
    }
    l
}

/// What `Params::init` asks of one modulus.
pub open spec fn modulus_accepted(poly_len: int, q: int) -> bool {
    &&& 2 <= q < 0x1000_0000
    &&& has_root(poly_len, q)
    &&& has_fermat_inverse(poly_len, q)
}

/// The inputs from which `Params::init` makes a parameter set.
pub open spec fn init_accepts(
    poly_len: int,
    moduli: Seq<u64>,
    n: int,
    pt_modulus: int,
    t_conv: int,
    t_exp_left: int,
    t_exp_right: int,
    t_gsw: int,
) -> bool {
    &&& 1 <= poly_len < 0x1000_0000
    &&& is_two_power(poly_len)
    &&& 1 <= moduli.len() <= 2
    &&& modulus_accepted(poly_len, moduli[0] as int)
    &&& moduli.len() == 2 ==> {
        &&& modulus_accepted(poly_len, moduli[1] as int)
        &&& has_fermat_inverse(moduli[0] as int, moduli[1] as int)
    }
    &&& 2 <= pt_modulus
    &&& pt_modulus <= (if moduli.len() == 1 {
        moduli[0] as int
    } else {
        (moduli[0] as int) * (moduli[1] as int)
    })
    &&& n >= 1
    &&& t_conv >= 1
    &&& t_exp_left >= 1
    &&& t_exp_right >= 1
    &&& t_gsw >= 1
}

/// The constants of one modulus: Barrett constant, root, inverse root and
/// inverse of `poly_len`; `None` where the modulus is not accepted.
fn residue_constants(poly_len: usize, q: u64) -> (res: Option<(u64, u64, u64, u64)>)
    requires
        1 <= poly_len < 0x1000_0000,
    ensures
        res is Some <==> modulus_accepted(poly_len as int, q as int),
        res matches Some(c) ==> {
            &&& c.0 as int == barrett_ratio(q)
            &&& c.1 < q
            &&& c.2 < q
            &&& c.3 < q
            &&& is_root(c.1 as int, poly_len as int, q as int)
            &&& ((c.1 as int) * (c.2 as int)) % (q as int) == 1
            &&& ((poly_len as int) * (c.3 as int)) % (q as int) == 1
        },
{
    if q < 2 || q >= 0x1000_0000 {
        return None;
    }
    let ratio: u64 = barrett_ratio_of(q);
    let root: u64 = match find_root(poly_len, q) {
        Some(r) => r,
        None => {
            return None;
        },
    };
    let inv_root: u64 = pow_mod_raw(root, 2 * (poly_len as u64) - 1, q, ratio);
    let inv_len: u64 = pow_mod_raw(poly_len as u64, q - 2, q, ratio);
    let check: u64 = mul_mod_raw(poly_len as u64, inv_len, q, ratio);
    if check != 1 {
        return None;
    }
    proof {
        lemma_root_inverse(root as int, poly_len as int, q as int);
    }
    Some((ratio, root, inv_root, inv_len))
}

impl Params {
    /// Makes the parameter set for the given ring degree, moduli and
    /// dimensions, with the constants that the transforms need.
    ///
    /// Returns `None` exactly where `init_accepts` does not hold: where a
    /// size is out of range, a modulus has no root of unity of order
    /// `2 * poly_len` among the candidates, or an inverse does not exist.
    pub fn init(
        poly_len: usize,
        moduli: &Vec<u64>,
        n: usize,
        pt_modulus: u64,
        t_conv: usize,
        t_exp_left: usize,
        t_exp_right: usize,
        t_gsw: usize,
        db_dim_1: usize,
        db_dim_2: usize,
    ) -> (res: Option<Params>)
        ensures
            res is Some <==> init_accepts(
                poly_len as int,
                moduli@,
                n as int,
                pt_modulus as int,
                t_conv as int,
                t_exp_left as int,
                t_exp_right as int,
                t_gsw as int,
            ),
            res matches Some(p) ==> {
                &&& p.wf()
                &&& p.poly_len == poly_len
                &&& p.moduli@ == moduli@
                &&& p.crt_count == moduli@.len()
                &&& p.n == n
                &&& p.pt_modulus == pt_modulus
                &&& p.t_conv == t_conv
                &&& p.t_exp_left == t_exp_left
                &&& p.t_exp_right == t_exp_right
                &&& p.t_gsw == t_gsw
                &&& p.db_dim_1 == db_dim_1
                &&& p.db_dim_2 == db_dim_2
            },
    {
        let crt_count: usize = moduli.len();
        if poly_len < 1 || poly_len >= 0x1000_0000 || crt_count < 1 || crt_count > 2 {
            return None;
        }
        if !check_two_power(poly_len) {
            return None;
        }
        if n < 1 || t_conv < 1 || t_exp_left < 1 || t_exp_right < 1 || t_gsw < 1 || pt_modulus < 2 {
            return None;
        }
        let q0: u64 = moduli[0];
        let c0: (u64, u64, u64, u64) = match residue_constants(poly_len, q0) {
            Some(c) => c,
            None => {
                return None;
            },
        };
        let mut own_moduli: Vec<u64> = Vec::new();
        let mut barrett_cr_1: Vec<u64> = Vec::new();
        let mut roots: Vec<u64> = Vec::new();
        let mut inv_roots: Vec<u64> = Vec::new();
        let mut inv_poly_len: Vec<u64> = Vec::new();
        own_moduli.push(q0);
        barrett_cr_1.push(c0.0);
        roots.push(c0.1);
        inv_roots.push(c0.2);
        inv_poly_len.push(c0.3);
        let mut modulus: u64 = q0;
        let mut crt_inv: u64 = 0;
        if crt_count == 2 {
            let q1: u64 = moduli[1];
            let c1: (u64, u64, u64, u64) = match residue_constants(poly_len, q1) {
                Some(c) => c,
                None => {
                    return None;
                },
            };
            crt_inv = pow_mod_raw(q0, q1 - 2, q1, c1.0);
            let check: u64 = mul_mod_raw(q0, crt_inv, q1, c1.0);
            if check != 1 {
                return None;
            }
            assert(q0 * q1 < 0x100_0000_0000_0000) by (nonlinear_arith)
                requires
                    q0 < 0x1000_0000,
                    q1 < 0x1000_0000,
            ;
            modulus = q0 * q1;
            own_moduli.push(q1);
            barrett_cr_1.push(c1.0);
            roots.push(c1.1);
            inv_roots.push(c1.2);
            inv_poly_len.push(c1.3);
            proof {
                lemma_mul_mod_noop_right(q0 as int, pow(q0 as int, (q1 - 2) as nat), q1 as int);
            }
        }
        if pt_modulus > modulus {
            return None;
        }
        let modulus_log2: u64 = log2_ceil(modulus);
        proof {
            assert(own_moduli@ =~= moduli@);
            lemma_mul_mod_noop_right(
                poly_len as int,
                pow(poly_len as int, (q0 - 2) as nat),
                q0 as int,
            );
            if crt_count == 2 {
                lemma_mul_mod_noop_right(
                    poly_len as int,
                    pow(poly_len as int, (moduli@[1] - 2) as nat),
                    moduli@[1] as int,
                );
            }
        }
        Some(
            Params {
                poly_len,
                crt_count,
                moduli: own_moduli,
                barrett_cr_1,
                modulus,
                modulus_log2,
                roots,
                inv_roots,
                inv_poly_len,
                crt_inv,
                pt_modulus,
                n,
                t_conv,
                t_exp_left,
                t_exp_right,
                t_gsw,
                db_dim_1,
                db_dim_2,
            },
        )
    }
}

} // verus!
