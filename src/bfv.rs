use vstd::prelude::*;
use vstd::arithmetic::div_mod::{lemma_small_mod, lemma_mod_bound};
use vstd::arithmetic::power::pow;
use crate::error::AlgebraError;
use crate::ntt::{NTT, NTT_Algorithm, valid_ntt_params};
use crate::rq::{decomposition_count, digit_count, padded, PolynomialRing, PolynomialRingInstance, MAX_DEGREE, is_binomial};
use crate::upoly::{coef, degree_of, ints, UnivariatePolynomial};
use crate::zq::{reduce_i64, coprime};

verus! {

/// Largest plaintext modulus: keeps every intermediate of the rescaling in an `i128`.
pub const MAX_PLAINTEXT_MODULUS: u64 = 0x100_0000;

/// Largest ciphertext modulus.
pub const MAX_CIPHERTEXT_MODULUS: u64 = 0x4000_0000_0000_0000;

/// Decoding reads at most this many coefficients as binary digits.
pub const DECODE_DIGITS: usize = 100;

/// The transform of `x` (zero-padded to `n`) under `c`.
pub open spec fn ntt_of(c: NTT, x: Seq<int>) -> Seq<int> {
    Seq::new(c.n as nat, |k: int| c.forward_spec(padded(x, c.n as nat), k))
}

/// The inverse transform of `w` under `c`.
pub open spec fn intt_of(c: NTT, w: Seq<int>) -> Seq<int> {
    Seq::new(c.n as nat, |j: int| c.inverse_spec(w, j))
}

pub open spec fn pw_add(a: Seq<int>, b: Seq<int>, q: int) -> Seq<int> {
    Seq::new(a.len(), |k: int| (a[k] + b[k]) % q)
}

pub open spec fn pw_mul(a: Seq<int>, b: Seq<int>, q: int) -> Seq<int> {
    Seq::new(a.len(), |k: int| (a[k] * b[k]) % q)
}

pub open spec fn pw_neg(a: Seq<int>, q: int) -> Seq<int> {
    Seq::new(a.len(), |k: int| (-a[k]) % q)
}

/// Signed samples reduced modulo `q`.
pub open spec fn lift(v: Seq<i64>, q: int) -> Seq<int> {
    Seq::new(v.len(), |i: int| (v[i] as int) % q)
}

/// Bit `i` of `m`.
pub open spec fn bit(m: nat, i: nat) -> int {
    ((m / vstd::arithmetic::power::pow(2, i) as nat) % 2) as int
}

/// Number of binary digits of `m`.
pub open spec fn bit_length(m: nat) -> nat
    decreases m,
{
    if m == 0 {
        0
    } else {
        1 + bit_length(m / 2)
    }
}

/// `⌊log₂ p⌋` for `p ≥ 1`.
pub open spec fn log2_floor(p: nat) -> nat
    decreases p,
{
    if p <= 1 {
        0
    } else {
        1 + log2_floor(p / 2)
    }
}

/// The plaintext polynomial of `m` scaled by `delta`: coefficient `i` is
/// `delta` where bit `i` of `m` is set, zero elsewhere.
pub open spec fn scaled_message(m: nat, delta: int, n: nat, q: int) -> Seq<int> {
    Seq::new(n, |i: int| if bit(m, i as nat) == 1 { delta % q } else { 0 })
}

/// `round(p·x/q) mod p`, centred into `(-p/2, p/2]` when `p > 2`.
pub open spec fn rescale_coef(x: int, p: int, q: int) -> int {
    let y = ((2 * p * x + q) / (2 * q)) % p;
    if p > 2 && y >= (p + 1) / 2 {
        y - p
    } else {
        y
    }
}

/// `Σ_{k ≤ i < m} d_i · 2^(i-k)`.
pub open spec fn binary_value(d: Seq<int>, k: int, m: int) -> int
    decreases m - k,
{
    if k >= m {
        0
    } else {
        d[k] + 2 * binary_value(d, k + 1, m)
    }
}

/// The message read off a phase polynomial.
pub open spec fn decoded(phase: Seq<int>, p: int, q: int) -> Seq<int> {
    Seq::new(phase.len(), |k: int| rescale_coef(phase[k], p, q))
}

/// Unsigned samples reduced modulo `q`.
pub open spec fn reduced(v: Seq<u64>, q: int) -> Seq<int> {
    Seq::new(v.len(), |i: int| (v[i] as int) % q)
}

/// The parameters `BFV::init` accepts.
pub open spec fn bfv_params(n: usize, p: u64, q: u64, root: u64) -> bool {
    &&& valid_ntt_params(n, q, root, NTT_Algorithm::NegativeConvolution)
    &&& n <= MAX_DEGREE
    &&& 2 <= p <= MAX_PLAINTEXT_MODULUS
    &&& p < q
    &&& q < MAX_CIPHERTEXT_MODULUS
}

/// A BFV instance: ring `Z_q[x]/(x^n + 1)` with its negacyclic transform,
/// plaintext modulus `p`, and a key pair kept in the evaluation basis.
pub struct BFV {
    pub n: usize,
    pub p: u64,
    pub q: u64,
    pub ctx: NTT,
    pub ring: PolynomialRing,
    pub secret_key: PolynomialRingInstance,
    pub public_key: (PolynomialRingInstance, PolynomialRingInstance),
}

/// The ring's elements in the evaluation basis.
pub open spec fn evaluated(ring: PolynomialRing, x: PolynomialRingInstance) -> bool {
    ring.contains(x) && x.ntt_form && x.coefficients@.len() == ring.n
}

/// Ring elements in the coefficient basis of full length.
pub open spec fn coefficient_form(ring: PolynomialRing, x: PolynomialRingInstance) -> bool {
    ring.contains(x) && !x.ntt_form && x.coefficients@.len() == ring.n
}

impl BFV {
    pub open spec fn params_ok(&self) -> bool {
        &&& self.ring.wf()
        &&& self.ring.ntt == Some(self.ctx)
        &&& self.ctx.negacyclic()
        &&& self.ring.fixed_length_coefficients
        &&& self.ring.n == self.n
        &&& self.ctx.n == self.n
        &&& self.ring.modulus == self.q
        &&& self.ctx.q == self.q
        &&& 2 <= self.p <= MAX_PLAINTEXT_MODULUS
        &&& self.p < self.q
        &&& self.q < MAX_CIPHERTEXT_MODULUS
    }

    pub open spec fn wf(&self) -> bool {
        &&& self.params_ok()
        &&& evaluated(self.ring, self.secret_key)
        &&& evaluated(self.ring, self.public_key.0)
        &&& evaluated(self.ring, self.public_key.1)
    }

    /// `Δ = ⌊q/p⌋`.
    pub open spec fn delta(&self) -> int {
        (self.q / self.p) as int
    }

    fn to_eval(&self, x: &Vec<u64>) -> (r: PolynomialRingInstance)
        requires
            self.params_ok(),
            x@.len() == self.n,
            forall|i: int| 0 <= i < x@.len() ==> #[trigger] x@[i] < self.q,
        ensures
            evaluated(self.ring, r),
            r@ == ntt_of(self.ctx, ints(x@)),
    {
        let c = PolynomialRingInstance { coefficients: x.clone(), ntt_form: false };
        assert(c.coefficients@ == x@);
        match self.ring.apply_ntt_ctxt(&c) {
            Ok(z) => {
                proof {
                    assert(z@ =~= ntt_of(self.ctx, ints(x@)));
                }
                z
            },
            Err(_) => {
                proof { assert(false); }
                c
            },
        }
    }

    fn to_coef(&self, w: &PolynomialRingInstance) -> (r: PolynomialRingInstance)
        requires
            self.params_ok(),
            evaluated(self.ring, *w),
        ensures
            coefficient_form(self.ring, r),
            r@ == intt_of(self.ctx, w@),
    {
        match self.ring.from_ntt_ctxt(w, true) {
            Ok(z) => {
                proof {
                    assert forall|j: int| 0 <= j < self.n implies #[trigger] z@[j] == intt_of(self.ctx, w@)[j] by {
                        assert(coef(z@, j) == z@[j]);
                    }
                    assert(z@ =~= intt_of(self.ctx, w@));
                }
                z
            },
            Err(_) => {
                proof { assert(false); }
                w.clone()
            },
        }
    }

    fn eval_add(&self, a: &PolynomialRingInstance, b: &PolynomialRingInstance) -> (r: PolynomialRingInstance)
        requires
            self.params_ok(),
            evaluated(self.ring, *a),
            evaluated(self.ring, *b),
        ensures
            evaluated(self.ring, r),
            r@ == pw_add(a@, b@, self.q as int),
    {
        let r = self.ring.add(a, b);
        proof {
            assert forall|k: int| 0 <= k < self.n implies #[trigger] r@[k] == pw_add(a@, b@, self.q as int)[k] by {
                assert(coef(r@, k) == r@[k]);
                assert(coef(a@, k) == a@[k]);
                assert(coef(b@, k) == b@[k]);
            }
            assert(r@ =~= pw_add(a@, b@, self.q as int));
        }
        r
    }

    fn eval_mul(&self, a: &PolynomialRingInstance, b: &PolynomialRingInstance) -> (r: PolynomialRingInstance)
        requires
            self.params_ok(),
            evaluated(self.ring, *a),
            evaluated(self.ring, *b),
        ensures
            evaluated(self.ring, r),
            r@ == pw_mul(a@, b@, self.q as int),
    {
        match self.ring.mul(a, b) {
            Ok(r) => {
                proof {
                    assert forall|k: int| 0 <= k < self.n implies #[trigger] r@[k] == pw_mul(a@, b@, self.q as int)[k] by {
                        assert(coef(r@, k) == r@[k]);
                        assert(coef(a@, k) == a@[k]);
                        assert(coef(b@, k) == b@[k]);
                    }
                    assert(r@ =~= pw_mul(a@, b@, self.q as int));
                }
                r
            },
            Err(_) => {
                proof { assert(false); }
                a.clone()
            },
        }
    }

    fn eval_neg(&self, a: &PolynomialRingInstance) -> (r: PolynomialRingInstance)
        requires
            self.params_ok(),
            evaluated(self.ring, *a),
        ensures
            evaluated(self.ring, r),
            r@ == pw_neg(a@, self.q as int),
    {
        let r = self.ring.neg(a);
        proof {
            assert forall|k: int| 0 <= k < self.n implies #[trigger] r@[k] == pw_neg(a@, self.q as int)[k] by {
                assert(coef(r@, k) == r@[k]);
                assert(coef(a@, k) == a@[k]);
            }
            assert(r@ =~= pw_neg(a@, self.q as int));
        }
        r
    }

    fn lift_samples(&self, v: &Vec<i64>) -> (r: Vec<u64>)
        requires
            self.params_ok(),
        ensures
            r@.len() == v@.len(),
            ints(r@) == lift(v@, self.q as int),
            forall|i: int| 0 <= i < r@.len() ==> #[trigger] r@[i] < self.q,
    {
        let mut out: Vec<u64> = Vec::new();
        let mut i: usize = 0;
        while i < v.len()
            invariant
                self.params_ok(),
                i <= v@.len(),
                out@.len() == i,
                forall|j: int| 0 <= j < i ==> #[trigger] out@[j] < self.q,
                forall|j: int| 0 <= j < i ==> #[trigger] out@[j] as int == (v@[j] as int) % (self.q as int),
            decreases v@.len() - i,
        {
            out.push(reduce_i64(v[i], self.q));
            i = i + 1;
        }
        assert(ints(out@) =~= lift(v@, self.q as int));
        out
    }

    fn reduce_all(&self, v: &Vec<u64>) -> (r: Vec<u64>)
        requires
            self.params_ok(),
        ensures
            r@.len() == v@.len(),
            ints(r@) == reduced(v@, self.q as int),
            forall|i: int| 0 <= i < r@.len() ==> #[trigger] r@[i] < self.q,
    {
        let mut out: Vec<u64> = Vec::new();
        let mut i: usize = 0;
        while i < v.len()
            invariant
                self.params_ok(),
                i <= v@.len(),
                out@.len() == i,
                forall|j: int| 0 <= j < i ==> #[trigger] out@[j] < self.q,
                forall|j: int| 0 <= j < i ==> #[trigger] out@[j] as int == (v@[j] as int) % (self.q as int),
            decreases v@.len() - i,
        {
            out.push(v[i] % self.q);
            i = i + 1;
        }
        assert(ints(out@) =~= reduced(v@, self.q as int));
        out
    }

    /// Parameters and key generation from given samples: the secret `s`
    /// (small signed coefficients), the uniform `a` and the error `e`, each
    /// of `n` coefficients. The secret key is `s`, the public key
    /// `(-(a·s + e), a)`, all in the evaluation basis.
    /// `BadParameters` unless `q` is a prime with a primitive `2n`-th root
    /// `root`, `n` a power of two, and `2 ≤ p < q` within the supported
    /// sizes; `LengthMismatch` when a sample does not have `n` coefficients.
    /// The sizes `p ≤ 2^24` and `q < 2^62` are limits of this representation,
    /// not of the scheme: they keep the rescaled tensor products within `i128`.
    #[verifier::spinoff_prover]
    pub fn init(n: usize, p: u64, q: u64, root: u64, secret: &Vec<i64>, a: &Vec<u64>, e: &Vec<i64>)
        -> (r: Result<BFV, AlgebraError>)
        ensures
            !bfv_params(n, p, q, root) ==> r == Err::<BFV, AlgebraError>(AlgebraError::BadParameters),
            bfv_params(n, p, q, root) && !(secret@.len() == n && a@.len() == n && e@.len() == n)
                ==> r == Err::<BFV, AlgebraError>(AlgebraError::LengthMismatch),
            r is Ok <==> (bfv_params(n, p, q, root) && secret@.len() == n && a@.len() == n && e@.len() == n),
            r matches Ok(b) ==> {
                &&& b.wf() && b.n == n && b.p == p && b.q == q && b.ctx.root == root
                &&& b.secret_key@ == ntt_of(b.ctx, lift(secret@, q as int))
                &&& b.public_key.1@ == ntt_of(b.ctx, reduced(a@, q as int))
                &&& b.public_key.0@ == pw_neg(pw_add(pw_mul(b.public_key.1@, b.secret_key@, q as int),
                    ntt_of(b.ctx, lift(e@, q as int)), q as int), q as int)
            },
    {
        if n > MAX_DEGREE || p < 2 || p > MAX_PLAINTEXT_MODULUS || p >= q || q >= MAX_CIPHERTEXT_MODULUS {
            return Err(AlgebraError::BadParameters);
        }
        let ctx = match NTT::new(n, q, root, NTT_Algorithm::NegativeConvolution) {
            Ok(c) => c,
            Err(_) => { return Err(AlgebraError::BadParameters); },
        };
        let mut phi_c: Vec<u64> = Vec::new();
        phi_c.push(1);
        let mut i: usize = 1;
        while i < n
            invariant
                1 <= i <= n,
                n <= MAX_DEGREE,
                phi_c@.len() == i,
                phi_c@[0] == 1,
                forall|j: int| 0 < j < i ==> #[trigger] phi_c@[j] == 0,
            decreases n - i,
        {
            phi_c.push(0);
            i = i + 1;
        }
        phi_c.push(1);
        let phi = UnivariatePolynomial { coefficients: phi_c, modulus: q, clean: false };
        proof {
            assert(q > 1);
            assert(phi@.last() == 1);
            assert(degree_of(phi@) == n);
            assert(phi@[n as int] == 1);
            lemma_small_mod(1, q as nat);
            assert(coprime(1, q as int)) by {
                assert((1int % (q as int)) == 1);
                assert(crate::zq::gcd(q as nat, 1) == crate::zq::gcd(1, (q % 1) as nat));
                assert(crate::zq::gcd(1, 0) == 1);
            }
            assert(is_binomial(phi@, n as int, q as int, true)) by {
                assert(phi@[0] == 1);
                assert forall|j: int| 0 < j < n implies #[trigger] phi@[j] == 0 by {
                    assert(phi@[j] == phi.coefficients@[j] as int);
                }
            }
        }
        let ring0 = match PolynomialRing::new(phi, true) {
            Ok(r) => r,
            Err(_) => { return Err(AlgebraError::BadParameters); },
        };
        let ring = match ring0.get_ntt_enabled_ring(ctx) {
            Ok(r) => r,
            Err(_) => { return Err(AlgebraError::BadParameters); },
        };
        if secret.len() != n || a.len() != n || e.len() != n {
            return Err(AlgebraError::LengthMismatch);
        }
        let empty = PolynomialRingInstance { coefficients: Vec::new(), ntt_form: true };
        let mut b = BFV {
            n,
            p,
            q,
            ctx,
            ring,
            secret_key: empty.clone(),
            public_key: (empty.clone(), empty),
        };
        let s_l = b.lift_samples(secret);
        let sk = b.to_eval(&s_l);
        let a_r = b.reduce_all(a);
        let pk1 = b.to_eval(&a_r);
        let e_l = b.lift_samples(e);
        let et = b.to_eval(&e_l);
        let as_ = b.eval_mul(&pk1, &sk);
        let sum = b.eval_add(&as_, &et);
        let pk0 = b.eval_neg(&sum);
        b.secret_key = sk;
        b.public_key = (pk0, pk1);
        Ok(b)
    }

    /// Encryption of `plaintext` with given samples: the small `u` and the
    /// errors `e1`, `e2`. `M` is the binary expansion of `plaintext` scaled by
    /// `Δ`; the ciphertext is `(pk₀·u + e₁ + Δ·M, pk₁·u + e₂)`, computed in the
    /// evaluation basis and returned in the coefficient basis.
    /// `ParameterOverflow` when `plaintext` has more bits than `⌊log₂ p⌋` or
    /// than `n`; `LengthMismatch` when a sample does not have `n` coefficients.
    #[verifier::spinoff_prover]
    pub fn encrypt_with(&self, plaintext: u64, u: &Vec<i64>, e1: &Vec<i64>, e2: &Vec<i64>)
        -> (r: Result<(PolynomialRingInstance, PolynomialRingInstance), AlgebraError>)
        requires
            self.wf(),
        ensures
            !encodable(plaintext as nat, self.p as nat, self.n as nat)
                ==> r == Err::<(PolynomialRingInstance, PolynomialRingInstance), AlgebraError>(AlgebraError::ParameterOverflow),
            encodable(plaintext as nat, self.p as nat, self.n as nat) && !(u@.len() == self.n && e1@.len() == self.n && e2@.len() == self.n)
                ==> r == Err::<(PolynomialRingInstance, PolynomialRingInstance), AlgebraError>(AlgebraError::LengthMismatch),
            r is Ok <==> (encodable(plaintext as nat, self.p as nat, self.n as nat)
                && u@.len() == self.n && e1@.len() == self.n && e2@.len() == self.n),
            r matches Ok((c0, c1)) ==> {
                let q = self.q as int;
                let ut = ntt_of(self.ctx, lift(u@, q));
                &&& coefficient_form(self.ring, c0) && coefficient_form(self.ring, c1)
                &&& c0@ == intt_of(self.ctx, pw_add(pw_add(pw_mul(self.public_key.0@, ut, q),
                    ntt_of(self.ctx, lift(e1@, q)), q),
                    ntt_of(self.ctx, scaled_message(plaintext as nat, self.delta(), self.n as nat, q)), q))
                &&& c1@ == intt_of(self.ctx, pw_add(pw_mul(self.public_key.1@, ut, q),
                    ntt_of(self.ctx, lift(e2@, q)), q))
            },
    {
        let bl = bit_length_exec(plaintext);
        let lp = log2_floor_exec(self.p);
        if bl > lp || bl > self.n as u64 {
            return Err(AlgebraError::ParameterOverflow);
        }
        if u.len() != self.n || e1.len() != self.n || e2.len() != self.n {
            return Err(AlgebraError::LengthMismatch);
        }
        let q = self.q;
        let delta: u64 = q / self.p;
        let mut msg: Vec<u64> = Vec::new();
        let mut t: u64 = plaintext;
        let mut i: usize = 0;
        proof {
            vstd::arithmetic::power::lemma_pow0(2);
            assert(plaintext as nat / 1 == plaintext as nat);
        }
        while i < self.n
            invariant
                self.wf(),
                q == self.q,
                delta == self.q / self.p,
                i <= self.n,
                msg@.len() == i,
                t as nat == plaintext as nat / vstd::arithmetic::power::pow(2, i as nat) as nat,
                forall|j: int| 0 <= j < i ==> #[trigger] msg@[j] < q,
                forall|j: int| 0 <= j < i ==> #[trigger] msg@[j] as int
                    == scaled_message(plaintext as nat, self.delta(), self.n as nat, q as int)[j],
            decreases self.n - i,
        {
            proof {
                vstd::arithmetic::power::lemma_pow_positive(2, i as nat);
                vstd::arithmetic::div_mod::lemma_div_denominator(plaintext as int,
                    vstd::arithmetic::power::pow(2, i as nat), 2);
                crate::rq::lemma_pow_succ(2, i as nat);
                vstd::arithmetic::mul::lemma_mul_is_commutative(2, vstd::arithmetic::power::pow(2, i as nat));
                assert(delta < q) by {
                    vstd::arithmetic::div_mod::lemma_div_is_ordered_by_denominator(q as int, 1, self.p as int);
                    vstd::arithmetic::div_mod::lemma_div_decreases(q as int, self.p as int);
                }
                lemma_small_mod(delta as nat, q as nat);
            }
            let v: u64 = if t % 2 == 1 { delta } else { 0 };
            msg.push(v);
            t = t / 2;
            i = i + 1;
        }
        let ghost qi = q as int;
        let ut = self.to_eval(&self.lift_samples(u));
        let e1t = self.to_eval(&self.lift_samples(e1));
        let e2t = self.to_eval(&self.lift_samples(e2));
        proof {
            assert(ints(msg@) =~= scaled_message(plaintext as nat, self.delta(), self.n as nat, qi));
        }
        let mt = self.to_eval(&msg);
        let a0 = self.eval_mul(&self.public_key.0, &ut);
        let a1 = self.eval_add(&a0, &e1t);
        let a2 = self.eval_add(&a1, &mt);
        let b0 = self.eval_mul(&self.public_key.1, &ut);
        let b1 = self.eval_add(&b0, &e2t);
        Ok((self.to_coef(&a2), self.to_coef(&b1)))
    }

    /// Homomorphic addition: `(c₀ + c₀', c₁ + c₁')`, added in the evaluation basis.
    pub fn homomorphic_addition(&self, c1: &(PolynomialRingInstance, PolynomialRingInstance),
        c2: &(PolynomialRingInstance, PolynomialRingInstance)) -> (r: (PolynomialRingInstance, PolynomialRingInstance))
        requires
            self.wf(),
            coefficient_form(self.ring, c1.0),
            coefficient_form(self.ring, c1.1),
            coefficient_form(self.ring, c2.0),
            coefficient_form(self.ring, c2.1),
        ensures
            coefficient_form(self.ring, r.0) && coefficient_form(self.ring, r.1),
            r.0@ == intt_of(self.ctx, pw_add(ntt_of(self.ctx, c1.0@), ntt_of(self.ctx, c2.0@), self.q as int)),
            r.1@ == intt_of(self.ctx, pw_add(ntt_of(self.ctx, c1.1@), ntt_of(self.ctx, c2.1@), self.q as int)),
    {
        let a1 = self.to_eval(&c1.0.coefficients);
        let b1 = self.to_eval(&c1.1.coefficients);
        let a2 = self.to_eval(&c2.0.coefficients);
        let b2 = self.to_eval(&c2.1.coefficients);
        let a = self.eval_add(&a1, &a2);
        let b = self.eval_add(&b1, &b2);
        (self.to_coef(&a), self.to_coef(&b))
    }

    /// The phase `c₀ + c₁·s` (two elements) or `c₀ + c₁·s + c₂·s²` (three),
    /// in the coefficient basis.
    pub open spec fn phase(&self, c: Seq<PolynomialRingInstance>) -> Seq<int> {
        let q = self.q as int;
        let s = self.secret_key@;
        let two = pw_add(ntt_of(self.ctx, c[0]@), pw_mul(ntt_of(self.ctx, c[1]@), s, q), q);
        if c.len() == 2 {
            intt_of(self.ctx, two)
        } else {
            intt_of(self.ctx, pw_add(two, pw_mul(pw_mul(ntt_of(self.ctx, c[2]@), s, q), s, q), q))
        }
    }

    /// Decryption: the phase rescaled by `p/q`, rounded, reduced modulo `p`,
    /// centred, and read as binary digits. `LengthMismatch` unless the
    /// ciphertext has two or three elements; `ParameterOverflow` when a digit
    /// at or beyond the hundredth is non-zero.
    pub fn decrypt(&self, ciphertext: &Vec<PolynomialRingInstance>) -> (r: Result<i128, AlgebraError>)
        requires
            self.wf(),
            forall|i: int| 0 <= i < ciphertext@.len() ==> coefficient_form(self.ring, #[trigger] ciphertext@[i]),
        ensures
            !(ciphertext@.len() == 2 || ciphertext@.len() == 3)
                ==> r == Err::<i128, AlgebraError>(AlgebraError::LengthMismatch),
            (ciphertext@.len() == 2 || ciphertext@.len() == 3) ==> {
                let d = decoded(self.phase(ciphertext@), self.p as int, self.q as int);
                let m = if self.n < DECODE_DIGITS { self.n as int } else { DECODE_DIGITS as int };
                &&& r is Ok <==> forall|k: int| m <= k < self.n ==> #[trigger] d[k] == 0
                &&& r matches Ok(v) ==> v == binary_value(d, 0, m)
                &&& r matches Err(e) ==> e == AlgebraError::ParameterOverflow
            },
    {
        let len = ciphertext.len();
        if len != 2 && len != 3 {
            return Err(AlgebraError::LengthMismatch);
        }
        let ghost q = self.q as int;
        let c0 = self.to_eval(&ciphertext[0].coefficients);
        let c1 = self.to_eval(&ciphertext[1].coefficients);
        let t = self.eval_mul(&c1, &self.secret_key);
        let two = self.eval_add(&c0, &t);
        let ph = if len == 2 {
            two
        } else {
            let c2 = self.to_eval(&ciphertext[2].coefficients);
            let u = self.eval_mul(&c2, &self.secret_key);
            let w = self.eval_mul(&u, &self.secret_key);
            self.eval_add(&two, &w)
        };
        let x = self.to_coef(&ph);
        assert(x@ == self.phase(ciphertext@));
        self.decode(&x.coefficients)
    }

    /// Reads a phase polynomial: each coefficient rescaled by `p/q`, rounded,
    /// reduced modulo `p` and centred, then the first digits taken as binary.
    #[verifier::spinoff_prover]
    pub fn decode(&self, phase: &Vec<u64>) -> (r: Result<i128, AlgebraError>)
        requires
            self.params_ok(),
            phase@.len() == self.n,
            forall|i: int| 0 <= i < phase@.len() ==> #[trigger] phase@[i] < self.q,
        ensures
            ({
                let d = decoded(ints(phase@), self.p as int, self.q as int);
                let m = if self.n < DECODE_DIGITS { self.n as int } else { DECODE_DIGITS as int };
                &&& r is Ok <==> forall|k: int| m <= k < self.n ==> #[trigger] d[k] == 0
                &&& r matches Ok(v) ==> v == binary_value(d, 0, m)
                &&& r matches Err(e) ==> e == AlgebraError::ParameterOverflow
            }),
    {
        let ghost d = decoded(ints(phase@), self.p as int, self.q as int);
        assert(ints(phase@).len() == phase@.len());
        let m: usize = if self.n < DECODE_DIGITS { self.n } else { DECODE_DIGITS };
        let mut k: usize = m;
        while k < self.n
            invariant
                self.params_ok(),
                phase@.len() == self.n,
                forall|i: int| 0 <= i < phase@.len() ==> #[trigger] phase@[i] < self.q,
                m <= k <= self.n,
                m as int == (if self.n < DECODE_DIGITS { self.n as int } else { DECODE_DIGITS as int }),
                d == decoded(ints(phase@), self.p as int, self.q as int),
                d.len() == self.n,
                forall|j: int| m <= j < k ==> #[trigger] d[j] == 0,
            decreases self.n - k,
        {
            let v = rescale(phase[k], self.p, self.q);
            proof {
                assert(ints(phase@)[k as int] == phase@[k as int] as int);
                assert(d[k as int] == rescale_coef(phase@[k as int] as int, self.p as int, self.q as int));
            }
            if v != 0 {
                assert(d[k as int] != 0);
                return Err(AlgebraError::ParameterOverflow);
            }
            k = k + 1;
        }
        let mut acc: i128 = 0;
        let mut j: usize = m;
        let ghost bound: int = 0;
        proof { vstd::arithmetic::power::lemma_pow0(2); }
        while j > 0
            invariant
                self.params_ok(),
                phase@.len() == self.n,
                forall|i: int| 0 <= i < phase@.len() ==> #[trigger] phase@[i] < self.q,
                m <= self.n,
                m <= DECODE_DIGITS,
                j <= m,
                m as int == (if self.n < DECODE_DIGITS { self.n as int } else { DECODE_DIGITS as int }),
                d == decoded(ints(phase@), self.p as int, self.q as int),
                d.len() == self.n,
                acc as int == binary_value(d, j as int, m as int),
                -bound <= acc <= bound,
                bound + 0x80_0000 == 0x80_0000 * vstd::arithmetic::power::pow(2, (m - j) as nat),
            decreases j,
        {
            let v = rescale(phase[j - 1], self.p, self.q);
            proof {
                assert(ints(phase@)[j - 1] == phase@[j - 1] as int);
                assert(d[j - 1] == rescale_coef(phase@[j - 1] as int, self.p as int, self.q as int));
                assert(binary_value(d, j - 1, m as int) == d[j - 1] + 2 * binary_value(d, j as int, m as int));
                lemma_pow_bound((m - j) as nat);
                crate::rq::lemma_pow_succ(2, (m - j) as nat);
                assert(bound <= 0x80_0000 * 0x10_0000_0000_0000_0000_0000_0000) by (nonlinear_arith)
                    requires
                        bound + 0x80_0000 == 0x80_0000 * vstd::arithmetic::power::pow(2, (m - j) as nat),
                        vstd::arithmetic::power::pow(2, (m - j) as nat) <= 0x10_0000_0000_0000_0000_0000_0000,
                ;
            }
            acc = v as i128 + 2 * acc;
            proof {
                bound = 2 * bound + 0x80_0000;
                assert((m - (j - 1)) as nat == (m - j) as nat + 1);
            }
            j = j - 1;
        }
        Ok(acc)
    }

    fn eval_sub(&self, a: &PolynomialRingInstance, b: &PolynomialRingInstance) -> (r: PolynomialRingInstance)
        requires
            self.params_ok(),
            evaluated(self.ring, *a),
            evaluated(self.ring, *b),
        ensures
            evaluated(self.ring, r),
            r@ == pw_sub(a@, b@, self.q as int),
    {
        let r = self.ring.sub(a, b);
        proof {
            assert forall|k: int| 0 <= k < self.n implies #[trigger] r@[k] == pw_sub(a@, b@, self.q as int)[k] by {
                assert(coef(r@, k) == r@[k]);
                assert(coef(a@, k) == a@[k]);
                assert(coef(b@, k) == b@[k]);
            }
            assert(r@ =~= pw_sub(a@, b@, self.q as int));
        }
        r
    }

    /// The tensor product of two ciphertexts, each part rescaled by `p/q`,
    /// rounded and reduced modulo `q`: `(c₀c₀', c₀c₁' + c₀'c₁, c₁c₁')` over
    /// the integers modulo `x^n + 1`.
    pub fn naive_homomorphic_multiplication(&self, c1: &(PolynomialRingInstance, PolynomialRingInstance),
        c2: &(PolynomialRingInstance, PolynomialRingInstance))
        -> (r: (PolynomialRingInstance, PolynomialRingInstance, PolynomialRingInstance))
        requires
            self.wf(),
            coefficient_form(self.ring, c1.0),
            coefficient_form(self.ring, c1.1),
            coefficient_form(self.ring, c2.0),
            coefficient_form(self.ring, c2.1),
        ensures
            coefficient_form(self.ring, r.0) && coefficient_form(self.ring, r.1) && coefficient_form(self.ring, r.2),
            r.0@ == tensor_part(c1.0@, c2.0@, Seq::empty(), Seq::empty(), self.n as int, self.p as int, self.q as int),
            r.1@ == tensor_part(c1.0@, c2.1@, c2.0@, c1.1@, self.n as int, self.p as int, self.q as int),
            r.2@ == tensor_part(c1.1@, c2.1@, Seq::empty(), Seq::empty(), self.n as int, self.p as int, self.q as int),
    {
        let d0 = self.tensor(&c1.0.coefficients, &c2.0.coefficients, None);
        let d1 = self.tensor(&c1.0.coefficients, &c2.1.coefficients, Some((&c2.0.coefficients, &c1.1.coefficients)));
        let d2 = self.tensor(&c1.1.coefficients, &c2.1.coefficients, None);
        (d0, d1, d2)
    }

    #[verifier::spinoff_prover]
    fn tensor(&self, a: &Vec<u64>, b: &Vec<u64>, extra: Option<(&Vec<u64>, &Vec<u64>)>) -> (r: PolynomialRingInstance)
        requires
            self.params_ok(),
            a@.len() == self.n && b@.len() == self.n,
            forall|i: int| 0 <= i < a@.len() ==> #[trigger] a@[i] < self.q,
            forall|i: int| 0 <= i < b@.len() ==> #[trigger] b@[i] < self.q,
            extra matches Some((c, d)) ==> c@.len() == self.n && d@.len() == self.n
                && (forall|i: int| 0 <= i < c@.len() ==> #[trigger] c@[i] < self.q)
                && (forall|i: int| 0 <= i < d@.len() ==> #[trigger] d@[i] < self.q),
        ensures
            coefficient_form(self.ring, r),
            r@ == tensor_part(ints(a@), ints(b@),
                match extra { Some((c, d)) => ints(c@), None => Seq::<int>::empty() },
                match extra { Some((c, d)) => ints(d@), None => Seq::<int>::empty() },
                self.n as int, self.p as int, self.q as int),
    {
        let ghost cs = match extra { Some((c, d)) => ints(c@), None => Seq::<int>::empty() };
        let ghost ds = match extra { Some((c, d)) => ints(d@), None => Seq::<int>::empty() };
        let mut out: Vec<u64> = Vec::new();
        let mut k: usize = 0;
        while k < self.n
            invariant
                self.params_ok(),
                a@.len() == self.n && b@.len() == self.n,
                forall|i: int| 0 <= i < a@.len() ==> #[trigger] a@[i] < self.q,
                forall|i: int| 0 <= i < b@.len() ==> #[trigger] b@[i] < self.q,
                extra matches Some((c, d)) ==> c@.len() == self.n && d@.len() == self.n
                    && (forall|i: int| 0 <= i < c@.len() ==> #[trigger] c@[i] < self.q)
                    && (forall|i: int| 0 <= i < d@.len() ==> #[trigger] d@[i] < self.q),
                cs == match extra { Some((c, d)) => ints(c@), None => Seq::<int>::empty() },
                ds == match extra { Some((c, d)) => ints(d@), None => Seq::<int>::empty() },
                k <= self.n,
                out@.len() == k,
                forall|j: int| 0 <= j < k ==> #[trigger] out@[j] < self.q,
                forall|j: int| 0 <= j < k ==> #[trigger] out@[j] as int
                    == tensor_coef(ints(a@), ints(b@), cs, ds, j, self.n as int, self.p as int, self.q as int),
            decreases self.n - k,
        {
            let acc = neg_conv_split(a, b, k, self.q, (0, 0, 0, 0));
            let ghost x1 = (self.q as int) * (acc.0 - acc.2) + (acc.1 - acc.3);
            proof {
                assert((self.q as int) * (0u128 - 0u128) + (0u128 - 0u128) == 0) by (nonlinear_arith);
                assert(x1 == neg_conv(ints(a@), ints(b@), k as int, self.n as int));
                assert((self.n as int) * (self.q as int) <= 0x8000_0000 * 0x4000_0000_0000_0000) by (nonlinear_arith)
                    requires self.n <= 0x7fff_ffff, self.q < 0x4000_0000_0000_0000;
            }
            let acc2 = match extra {
                Some((c, d)) => {
                    let r2 = neg_conv_split(c, d, k, self.q, acc);
                    proof {
                        assert(cs == ints(c@) && ds == ints(d@));
                        assert((self.q as int) * (r2.0 - r2.2) + (r2.1 - r2.3) == x1 + neg_conv(ints(c@), ints(d@), k as int, self.n as int));
                        assert((self.q as int) * (r2.0 - r2.2) + (r2.1 - r2.3)
                            == neg_conv(ints(a@), ints(b@), k as int, self.n as int) + neg_conv(cs, ds, k as int, self.n as int));
                    }
                    r2
                },
                None => acc,
            };
            let v = scale_split(acc2.0, acc2.1, acc2.2, acc2.3, self.p, self.q);
            proof {
                let qq = self.q as int;
                match extra {
                    Some((c, d)) => {
                        assert(cs == ints(c@));
                        assert(cs.len() == self.n);
                    },
                    None => {
                        assert(cs.len() == 0);
                    },
                }
                assert(v as int == tensor_coef(ints(a@), ints(b@), cs, ds, k as int, self.n as int, self.p as int, self.q as int));
            }
            out.push(v);
            k = k + 1;
        }
        let r = PolynomialRingInstance { coefficients: out, ntt_form: false };
        proof {
            assert(r@ =~= tensor_part(ints(a@), ints(b@), cs, ds, self.n as int, self.p as int, self.q as int));
        }
        r
    }

    /// `⌈log_base q⌉ + 1`: how many pieces a decomposition in that base has,
    /// hence how many relinearisation keys it uses.
    pub fn decomposition_length(&self, base: u64) -> (r: usize)
        requires
            self.params_ok(),
            base >= 2,
        ensures
            r == decomposition_count(self.q as nat, base as nat),
    {
        let qm: u64 = self.q - 1;
        let mut t: u64 = qm;
        let mut l: usize = 0;
        proof {
            lemma_pow_64();
            lemma_digit_count_bound(qm as nat, base as nat, 64);
        }
        while t > 0
            invariant
                base >= 2,
                digit_count(qm as nat, base as nat) <= 64,
                l + digit_count(t as nat, base as nat) == digit_count(qm as nat, base as nat),
            decreases t,
        {
            proof {
                vstd::arithmetic::div_mod::lemma_div_decreases(t as int, base as int);
            }
            t = t / base;
            l = l + 1;
        }
        l + 1
    }

    /// Relinearisation keys from given samples, one per pair `(a_i, e_i)`:
    /// `(base^i · s² - (a_i·s + e_i), a_i)` in the evaluation basis.
    /// `BadParameters` when `base < 2`; `LengthMismatch` when the sample
    /// lists differ in length or a sample does not have `n` coefficients.
    #[verifier::spinoff_prover]
    pub fn relinearization_keygen_with_base_decomposition(&self, base: u64, a_samples: &Vec<Vec<u64>>,
        e_samples: &Vec<Vec<i64>>) -> (r: Result<Vec<(PolynomialRingInstance, PolynomialRingInstance)>, AlgebraError>)
        requires
            self.wf(),
        ensures
            base < 2 ==> r == Err::<Vec<(PolynomialRingInstance, PolynomialRingInstance)>, AlgebraError>(AlgebraError::BadParameters),
            r is Ok <==> (base >= 2 && a_samples@.len() == e_samples@.len()
                && forall|i: int| 0 <= i < a_samples@.len() ==> (#[trigger] a_samples@[i])@.len() == self.n
                    && e_samples@[i]@.len() == self.n),
            base >= 2 && r is Err ==> r == Err::<Vec<(PolynomialRingInstance, PolynomialRingInstance)>, AlgebraError>(AlgebraError::LengthMismatch),
            r matches Ok(keys) ==> keys@.len() == a_samples@.len()
                && forall|i: int| 0 <= i < keys@.len() ==> {
                    let q = self.q as int;
                    let s = self.secret_key@;
                    let ai = ntt_of(self.ctx, reduced(a_samples@[i]@, q));
                    &&& evaluated(self.ring, (#[trigger] keys@[i]).0) && evaluated(self.ring, keys@[i].1)
                    &&& keys@[i].1@ == ai
                    &&& keys@[i].0@ == pw_sub(pw_mul(constant(self.n as nat, vstd::arithmetic::power::pow(base as int, i as nat) % q),
                        pw_mul(s, s, q), q), pw_add(pw_mul(ai, s, q), ntt_of(self.ctx, lift(e_samples@[i]@, q)), q), q)
                },
    {
        if base < 2 {
            return Err(AlgebraError::BadParameters);
        }
        if a_samples.len() != e_samples.len() {
            return Err(AlgebraError::LengthMismatch);
        }
        let q = self.q;
        let s2 = self.eval_mul(&self.secret_key, &self.secret_key);
        let mut keys: Vec<(PolynomialRingInstance, PolynomialRingInstance)> = Vec::new();
        let mut bi: u64 = 1 % q;
        let mut i: usize = 0;
        proof {
            vstd::arithmetic::power::lemma_pow0(base as int);
        }
        while i < a_samples.len()
            invariant
                self.wf(),
                q == self.q,
                base >= 2,
                a_samples@.len() == e_samples@.len(),
                i <= a_samples@.len(),
                keys@.len() == i,
                evaluated(self.ring, s2),
                s2@ == pw_mul(self.secret_key@, self.secret_key@, q as int),
                bi < q,
                bi as int == vstd::arithmetic::power::pow(base as int, i as nat) % (q as int),
                forall|j: int| 0 <= j < i ==> (#[trigger] a_samples@[j])@.len() == self.n,
                forall|j: int| 0 <= j < i ==> (#[trigger] e_samples@[j])@.len() == self.n,
                forall|j: int| 0 <= j < i ==> {
                    let qq = q as int;
                    let s = self.secret_key@;
                    let aj = ntt_of(self.ctx, reduced(a_samples@[j]@, qq));
                    &&& evaluated(self.ring, (#[trigger] keys@[j]).0) && evaluated(self.ring, keys@[j].1)
                    &&& keys@[j].1@ == aj
                    &&& keys@[j].0@ == pw_sub(pw_mul(constant(self.n as nat, vstd::arithmetic::power::pow(base as int, j as nat) % qq),
                        pw_mul(s, s, qq), qq), pw_add(pw_mul(aj, s, qq), ntt_of(self.ctx, lift(e_samples@[j]@, qq)), qq), qq)
                },
            decreases a_samples@.len() - i,
        {
            if a_samples[i].len() != self.n || e_samples[i].len() != self.n {
                proof {
                    assert(!((#[trigger] a_samples@[i as int])@.len() == self.n && e_samples@[i as int]@.len() == self.n));
                }
                return Err(AlgebraError::LengthMismatch);
            }
            proof {
                assert(a_samples@[i as int]@.len() == self.n && e_samples@[i as int]@.len() == self.n);
            }
            let ai = self.to_eval(&self.reduce_all(&a_samples[i]));
            let ei = self.to_eval(&self.lift_samples(&e_samples[i]));
            let cvec = PolynomialRingInstance { coefficients: vec_filled(bi, self.n), ntt_form: true };
            proof {
                assert(cvec@ =~= constant(self.n as nat, bi as int));
                lemma_small_mod(bi as nat, q as nat);
            }
            let scaled = self.eval_mul(&cvec, &s2);
            let as_ = self.eval_mul(&ai, &self.secret_key);
            let noise = self.eval_add(&as_, &ei);
            let k0 = self.eval_sub(&scaled, &noise);
            keys.push((k0, ai));
            proof {
                vstd::arithmetic::power::lemma_pow_positive(base as int, i as nat);
                crate::rq::lemma_pow_succ(base as int, i as nat);
                vstd::arithmetic::div_mod::lemma_mul_mod_noop_general(base as int,
                    vstd::arithmetic::power::pow(base as int, i as nat), q as int);
                vstd::arithmetic::div_mod::lemma_small_mod((base % q) as nat, q as nat);
            }
            bi = crate::zq::mul_mod(base % q, bi, q);
            proof {
                vstd::arithmetic::div_mod::lemma_mul_mod_noop_general(base as int, bi as int, q as int);
                assert(bi as int == vstd::arithmetic::power::pow(base as int, (i + 1) as nat) % (q as int)) by {
                    let pw = vstd::arithmetic::power::pow(base as int, i as nat);
                    vstd::arithmetic::div_mod::lemma_mul_mod_noop_general(base as int, pw, q as int);
                }
            }
            i = i + 1;
        }
        Ok(keys)
    }

    /// Relinearisation by base decomposition: with `C₂ = Σ D_i · base^i`,
    /// `(C₀ + Σ rk_i⁰·D_i, C₁ + Σ rk_i¹·D_i)`, summed in the evaluation basis.
    /// `BadParameters` when `base < 2`; `LengthMismatch` when fewer keys than
    /// digits of `q` in that base are given.
    #[verifier::spinoff_prover]
    pub fn relinearize(&self, c: &(PolynomialRingInstance, PolynomialRingInstance, PolynomialRingInstance),
        keys: &Vec<(PolynomialRingInstance, PolynomialRingInstance)>, base: u64)
        -> (r: Result<(PolynomialRingInstance, PolynomialRingInstance), AlgebraError>)
        requires
            self.wf(),
            coefficient_form(self.ring, c.0),
            coefficient_form(self.ring, c.1),
            coefficient_form(self.ring, c.2),
            forall|i: int| 0 <= i < keys@.len() ==> evaluated(self.ring, (#[trigger] keys@[i]).0)
                && evaluated(self.ring, keys@[i].1),
        ensures
            base < 2 ==> r == Err::<(PolynomialRingInstance, PolynomialRingInstance), AlgebraError>(AlgebraError::BadParameters),
            base >= 2 && keys@.len() < decomposition_count(self.q as nat, base as nat)
                ==> r == Err::<(PolynomialRingInstance, PolynomialRingInstance), AlgebraError>(AlgebraError::LengthMismatch),
            r is Ok <==> (base >= 2 && keys@.len() >= decomposition_count(self.q as nat, base as nat)),
            r matches Ok((r0, r1)) ==> {
                let l = decomposition_count(self.q as nat, base as nat);
                let ds = digits(self.ctx, c.2@, base as int, l);
                &&& coefficient_form(self.ring, r0) && coefficient_form(self.ring, r1)
                &&& r0@ == intt_of(self.ctx, relin_sum(ntt_of(self.ctx, c.0@), key_parts(keys@, 0), ds, l, self.q as int))
                &&& r1@ == intt_of(self.ctx, relin_sum(ntt_of(self.ctx, c.1@), key_parts(keys@, 1), ds, l, self.q as int))
            },
    {
        if base < 2 {
            return Err(AlgebraError::BadParameters);
        }
        let l = self.decomposition_length(base);
        if keys.len() < l {
            return Err(AlgebraError::LengthMismatch);
        }
        let pieces = match self.ring.base_decompose(&c.2, base) {
            Ok(p) => p,
            Err(e) => { return Err(e); },
        };
        let ghost ds = digits(self.ctx, c.2@, base as int, l as nat);
        let ghost k0 = key_parts(keys@, 0);
        let ghost k1 = key_parts(keys@, 1);
        let mut acc0 = self.to_eval(&c.0.coefficients);
        let mut acc1 = self.to_eval(&c.1.coefficients);
        let mut i: usize = 0;
        while i < l
            invariant
                self.wf(),
                coefficient_form(self.ring, c.2),
                forall|j: int| 0 <= j < keys@.len() ==> evaluated(self.ring, (#[trigger] keys@[j]).0)
                    && evaluated(self.ring, keys@[j].1),
                base >= 2,
                l == decomposition_count(self.q as nat, base as nat),
                l <= keys@.len(),
                pieces@.len() == l,
                forall|j: int| 0 <= j < pieces@.len() ==> {
                    &&& self.ring.contains(#[trigger] pieces@[j])
                    &&& pieces@[j].ntt_form == c.2.ntt_form
                    &&& pieces@[j].coefficients@.len() == c.2.coefficients@.len()
                    &&& forall|k: int| 0 <= k < c.2.coefficients@.len() ==> #[trigger] pieces@[j]@[k]
                        == (c.2@[k] / vstd::arithmetic::power::pow(base as int, j as nat)) % (base as int)
                },
                ds == digits(self.ctx, c.2@, base as int, l as nat),
                k0 == key_parts(keys@, 0),
                k1 == key_parts(keys@, 1),
                i <= l,
                evaluated(self.ring, acc0),
                evaluated(self.ring, acc1),
                acc0@ == relin_sum(ntt_of(self.ctx, c.0@), k0, ds, i as nat, self.q as int),
                acc1@ == relin_sum(ntt_of(self.ctx, c.1@), k1, ds, i as nat, self.q as int),
            decreases l - i,
        {
            let piece = &pieces[i];
            let d = self.to_eval(&piece.coefficients);
            proof {
                assert(*piece == pieces@[i as int]);
                assert forall|k: int| 0 <= k < c.2.coefficients@.len() implies
                    #[trigger] ints(piece.coefficients@)[k] == digit_poly(c.2@, base as int, i as nat)[k] by {
                    assert(piece@[k] == (c.2@[k] / vstd::arithmetic::power::pow(base as int, i as nat)) % (base as int));
                }
                assert(ints(piece.coefficients@) =~= digit_poly(c.2@, base as int, i as nat));
                assert(d@ == ds[i as int]);
                assert(keys@[i as int].0@ == k0[i as int]);
                assert(keys@[i as int].1@ == k1[i as int]);
            }
            let t0 = self.eval_mul(&keys[i].0, &d);
            let t1 = self.eval_mul(&keys[i].1, &d);
            acc0 = self.eval_add(&acc0, &t0);
            acc1 = self.eval_add(&acc1, &t1);
            i = i + 1;
        }
        Ok((self.to_coef(&acc0), self.to_coef(&acc1)))
    }

    /// Homomorphic multiplication: the tensor product rescaled by `p/q`,
    /// then relinearised with `keys` in base `base`.
    pub fn homomorphic_multiplication(&self, c1: &(PolynomialRingInstance, PolynomialRingInstance),
        c2: &(PolynomialRingInstance, PolynomialRingInstance),
        keys: &Vec<(PolynomialRingInstance, PolynomialRingInstance)>, base: u64)
        -> (r: Result<(PolynomialRingInstance, PolynomialRingInstance), AlgebraError>)
        requires
            self.wf(),
            coefficient_form(self.ring, c1.0),
            coefficient_form(self.ring, c1.1),
            coefficient_form(self.ring, c2.0),
            coefficient_form(self.ring, c2.1),
            forall|i: int| 0 <= i < keys@.len() ==> evaluated(self.ring, (#[trigger] keys@[i]).0)
                && evaluated(self.ring, keys@[i].1),
        ensures
            r is Ok <==> (base >= 2 && keys@.len() >= decomposition_count(self.q as nat, base as nat)),
            r matches Err(e) ==> (base < 2 ==> e == AlgebraError::BadParameters)
                && (base >= 2 ==> e == AlgebraError::LengthMismatch),
            r matches Ok((r0, r1)) ==> {
                let n = self.n as int;
                let p = self.p as int;
                let q = self.q as int;
                let d0 = tensor_part(c1.0@, c2.0@, Seq::empty(), Seq::empty(), n, p, q);
                let d1 = tensor_part(c1.0@, c2.1@, c2.0@, c1.1@, n, p, q);
                let d2 = tensor_part(c1.1@, c2.1@, Seq::empty(), Seq::empty(), n, p, q);
                let l = decomposition_count(self.q as nat, base as nat);
                let ds = digits(self.ctx, d2, base as int, l);
                &&& coefficient_form(self.ring, r0) && coefficient_form(self.ring, r1)
                &&& r0@ == intt_of(self.ctx, relin_sum(ntt_of(self.ctx, d0), key_parts(keys@, 0), ds, l, q))
                &&& r1@ == intt_of(self.ctx, relin_sum(ntt_of(self.ctx, d1), key_parts(keys@, 1), ds, l, q))
            },
    {
        let t = self.naive_homomorphic_multiplication(c1, c2);
        self.relinearize(&t, keys, base)
    }
}

/// `Σ_{t < m}` of the terms of the coefficient of `x^k` in `a · b` modulo
/// `x^n + 1`: `a_t b_{k-t}` for `t ≤ k`, `-a_t b_{k-t+n}` for `t > k`.
pub open spec fn neg_conv_sum(a: Seq<int>, b: Seq<int>, k: int, n: int, m: nat) -> int
    decreases m,
{
    if m == 0 {
        0
    } else {
        let t = m - 1;
        neg_conv_sum(a, b, k, n, (m - 1) as nat) + if t <= k { a[t] * b[k - t] } else { -(a[t] * b[k - t + n]) }
    }
}

/// The coefficient of `x^k` in `a · b` over the integers, modulo `x^n + 1`.
pub open spec fn neg_conv(a: Seq<int>, b: Seq<int>, k: int, n: int) -> int {
    neg_conv_sum(a, b, k, n, n as nat)
}

/// `round(p·x/q) mod q`.
pub open spec fn scale_round(x: int, p: int, q: int) -> int {
    ((2 * p * x + q) / (2 * q)) % q
}

/// Bound on the split accumulators of one or two convolutions.
pub const SPLIT_BOUND: u128 = 0x1_0000_0000_0000_0000_0000_0000;

/// The terms of `neg_conv(a, b, k, n)` split as `q·h + l` and gathered by
/// sign: `q·(hp - hn) + (lp - ln)` equals the coefficient, added to the
/// incoming totals.
#[verifier::spinoff_prover]
pub(crate) fn neg_conv_split(a: &Vec<u64>, b: &Vec<u64>, k: usize, q: u64, acc: (u128, u128, u128, u128)) -> (r: (u128, u128, u128, u128))
    requires
        a@.len() == b@.len(),
        k < a@.len(),
        a@.len() <= MAX_DEGREE,
        2 <= q < MAX_CIPHERTEXT_MODULUS,
        forall|i: int| 0 <= i < a@.len() ==> #[trigger] a@[i] < q,
        forall|i: int| 0 <= i < b@.len() ==> #[trigger] b@[i] < q,
        acc.0 <= SPLIT_BOUND && acc.1 <= SPLIT_BOUND && acc.2 <= SPLIT_BOUND && acc.3 <= SPLIT_BOUND,
    ensures
        r.0 <= acc.0 + a@.len() * (q as int) && r.1 <= acc.1 + a@.len() * (q as int),
        r.2 <= acc.2 + a@.len() * (q as int) && r.3 <= acc.3 + a@.len() * (q as int),
        (q as int) * (r.0 - r.2) + (r.1 - r.3) == (q as int) * (acc.0 - acc.2) + (acc.1 - acc.3)
            + neg_conv(ints(a@), ints(b@), k as int, a@.len() as int),
{
    let n = a.len();
    let (mut hp, mut lp, mut hn, mut ln) = acc;
    let mut t: usize = 0;
    while t < n
        invariant
            n == a@.len(),
            a@.len() == b@.len(),
            k < n,
            n <= MAX_DEGREE,
            2 <= q < MAX_CIPHERTEXT_MODULUS,
            forall|i: int| 0 <= i < a@.len() ==> #[trigger] a@[i] < q,
            forall|i: int| 0 <= i < b@.len() ==> #[trigger] b@[i] < q,
            acc.0 <= SPLIT_BOUND && acc.1 <= SPLIT_BOUND && acc.2 <= SPLIT_BOUND && acc.3 <= SPLIT_BOUND,
            t <= n,
            hp <= acc.0 + t * (q as int),
            lp <= acc.1 + t * (q as int),
            hn <= acc.2 + t * (q as int),
            ln <= acc.3 + t * (q as int),
            (q as int) * (hp - hn) + (lp - ln) == (q as int) * (acc.0 - acc.2) + (acc.1 - acc.3)
                + neg_conv_sum(ints(a@), ints(b@), k as int, n as int, t as nat),
        decreases n - t,
    {
        let j: usize = if t <= k { k - t } else { k + n - t };
        let x = a[t];
        let y = b[j];
        assert((x as int) * (y as int) < (q as int) * (q as int)) by (nonlinear_arith)
            requires x < q, y < q;
        assert((q as int) * (q as int) <= 0x4000_0000_0000_0000 * 0x4000_0000_0000_0000) by (nonlinear_arith)
            requires q < 0x4000_0000_0000_0000;
        let prod: u128 = (x as u128) * (y as u128);
        let h: u128 = prod / (q as u128);
        let l: u128 = prod % (q as u128);
        proof {
            vstd::arithmetic::div_mod::lemma_fundamental_div_mod(prod as int, q as int);
            vstd::arithmetic::div_mod::lemma_mod_bound(prod as int, q as int);
            vstd::arithmetic::div_mod::lemma_div_is_ordered(prod as int, (q as int) * (q as int), q as int);
            vstd::arithmetic::div_mod::lemma_div_multiples_vanish(q as int, q as int);
            assert(ints(a@)[t as int] == x as int);
            assert(ints(b@)[j as int] == y as int);
            assert(t * (q as int) + q <= (n as int) * (q as int)) by (nonlinear_arith)
                requires t < n, q >= 0;
            assert((n as int) * (q as int) <= 0x8000_0000 * 0x4000_0000_0000_0000) by (nonlinear_arith)
                requires n <= 0x7fff_ffff, q < 0x4000_0000_0000_0000;
            assert((t + 1) * (q as int) == t * (q as int) + q) by (nonlinear_arith);
        }
        let ghost (ohp, olp, ohn, oln) = (hp as int, lp as int, hn as int, ln as int);
        if t <= k {
            hp = hp + h;
            lp = lp + l;
        } else {
            hn = hn + h;
            ln = ln + l;
        }
        proof {
            let qq = q as int;
            let term: int = if t <= k { (x as int) * (y as int) } else { -((x as int) * (y as int)) };
            assert(neg_conv_sum(ints(a@), ints(b@), k as int, n as int, (t + 1) as nat)
                == neg_conv_sum(ints(a@), ints(b@), k as int, n as int, t as nat) + term);
            assert(prod as int == qq * (h as int) + (l as int));
            if t <= k {
                assert(qq * (hp - hn) + (lp - ln) == qq * (ohp - ohn) + (olp - oln) + qq * (h as int) + (l as int)) by (nonlinear_arith)
                    requires hp == ohp + h, lp == olp + l, hn == ohn, ln == oln;
            } else {
                assert(qq * (hp - hn) + (lp - ln) == qq * (ohp - ohn) + (olp - oln) - (qq * (h as int) + (l as int))) by (nonlinear_arith)
                    requires hp == ohp, lp == olp, hn == ohn + h, ln == oln + l;
            }
        }
        t = t + 1;
    }
    (hp, lp, hn, ln)
}

/// `⌊num / den⌋` for a positive `den`.
fn floor_div(num: i128, den: i128) -> (r: i128)
    requires
        den > 0,
        num > i128::MIN + den,
    ensures
        r as int == (num as int) / (den as int),
{
    if num >= 0 {
        num / den
    } else {
        let m: i128 = -num;
        let c: i128 = (m + den - 1) / den;
        proof {
            let mm = m as int + den as int - 1;
            let qq = mm / (den as int);
            vstd::arithmetic::div_mod::lemma_fundamental_div_mod(mm, den as int);
            vstd::arithmetic::div_mod::lemma_mod_bound(mm, den as int);
            let rr = mm % (den as int);
            assert(c as int == qq);
            // num = -m = den * (-qq) + (den - 1 - rr)
            assert(num as int == (den as int) * (-qq) + (den - 1 - rr)) by (nonlinear_arith)
                requires mm == den * qq + rr, mm == m + den - 1, num == -m;
            vstd::arithmetic::div_mod::lemma_fundamental_div_mod_converse(num as int, den as int, -qq, den - 1 - rr);
        }
        -c
    }
}

/// `x mod q` into `[0, q)`.
pub(crate) fn mod_q(x: i128, q: u64) -> (r: u64)
    requires
        q > 0,
    ensures
        r as int == (x as int) % (q as int),
        r < q,
{
    let qq: i128 = q as i128;
    let m: i128 = if x >= 0 { x % qq } else { -((-(x + 1)) % qq) - 1 + qq };
    proof {
        vstd::arithmetic::div_mod::lemma_mod_bound(x as int, q as int);
        if x >= 0 {
            vstd::arithmetic::div_mod::lemma_fundamental_div_mod(x as int, q as int);
        } else {
            let y = -(x + 1);
            vstd::arithmetic::div_mod::lemma_fundamental_div_mod(y, q as int);
            vstd::arithmetic::div_mod::lemma_mod_bound(y, q as int);
            let d = y / (q as int);
            let rr = y % (q as int);
            assert(x as int == (q as int) * (-d - 1) + (q - 1 - rr)) by (nonlinear_arith)
                requires y == (q as int) * d + rr, y == -(x + 1);
            vstd::arithmetic::div_mod::lemma_fundamental_div_mod_converse(x as int, q as int, -d - 1, q - 1 - rr);
        }
    }
    m as u64
}

/// `round(p·X/q) mod q` for `X = q·(hp - hn) + (lp - ln)`.
#[verifier::spinoff_prover]
fn scale_split(hp: u128, lp: u128, hn: u128, ln: u128, p: u64, q: u64) -> (r: u64)
    requires
        2 <= p <= MAX_PLAINTEXT_MODULUS,
        2 <= q < MAX_CIPHERTEXT_MODULUS,
        hp <= SPLIT_BOUND && lp <= SPLIT_BOUND && hn <= SPLIT_BOUND && ln <= SPLIT_BOUND,
    ensures
        r as int == scale_round((q as int) * (hp - hn) + (lp - ln), p as int, q as int),
        r < q,
{
    let h: i128 = hp as i128 - hn as i128;
    let l: i128 = lp as i128 - ln as i128;
    assert(-(SPLIT_BOUND as int) <= h <= SPLIT_BOUND);
    assert(-(SPLIT_BOUND as int) <= l <= SPLIT_BOUND);
    assert(-(0x100_0000 * SPLIT_BOUND as int) <= (p as int) * (l as int) <= 0x100_0000 * SPLIT_BOUND as int) by (nonlinear_arith)
        requires -(SPLIT_BOUND as int) <= l <= SPLIT_BOUND, 2 <= p <= 0x100_0000;
    assert(-(0x100_0000 * SPLIT_BOUND as int) <= (p as int) * (h as int) <= 0x100_0000 * SPLIT_BOUND as int) by (nonlinear_arith)
        requires -(SPLIT_BOUND as int) <= h <= SPLIT_BOUND, 2 <= p <= 0x100_0000;
    let pi: i128 = p as i128;
    let qi: i128 = q as i128;
    assert(-(0x200_0000 * SPLIT_BOUND as int) <= 2 * (p as int) * (l as int) <= 0x200_0000 * SPLIT_BOUND as int) by (nonlinear_arith)
        requires -(SPLIT_BOUND as int) <= l <= SPLIT_BOUND, 2 <= p <= 0x100_0000;
    let num: i128 = 2 * pi * l + qi;
    let den: i128 = 2 * qi;
    let rd = floor_div(num, den);
    proof {
        vstd::arithmetic::div_mod::lemma_fundamental_div_mod(num as int, den as int);
        vstd::arithmetic::div_mod::lemma_mod_bound(num as int, den as int);
        let rem = (num as int) % (den as int);
        let x = (q as int) * (h as int) + (l as int);
        assert(2 * (p as int) * x + q == (den as int) * ((p as int) * (h as int) + rd) + rem) by (nonlinear_arith)
            requires
                num as int == den * rd + rem,
                num as int == 2 * p * l + q,
                den as int == 2 * q,
                x == q * h + l,
        ;
        vstd::arithmetic::div_mod::lemma_fundamental_div_mod_converse(2 * (p as int) * x + q, den as int,
            (p as int) * (h as int) + rd, rem);
        let bb: int = 0x200_0000 * SPLIT_BOUND as int + 0x4000_0000_0000_0000;
        assert(-bb <= rd <= bb) by (nonlinear_arith)
            requires
                num as int == den * rd + rem,
                0 <= rem < den,
                den >= 4,
                -bb <= num <= bb,
        ;
    }
    let total: i128 = pi * h + rd;
    mod_q(total, q)
}

pub open spec fn pw_sub(a: Seq<int>, b: Seq<int>, q: int) -> Seq<int> {
    Seq::new(a.len(), |k: int| (a[k] - b[k]) % q)
}

/// `n` copies of `c`: the transform of the constant polynomial `c`.
pub open spec fn constant(n: nat, c: int) -> Seq<int> {
    Seq::new(n, |k: int| c)
}

/// Coefficient `k` of a rescaled tensor part: `round(p/q · (a·b + c·d)) mod q`
/// over the integers modulo `x^n + 1` (`c·d` absent when `c` is empty).
pub open spec fn tensor_coef(a: Seq<int>, b: Seq<int>, c: Seq<int>, d: Seq<int>, k: int, n: int, p: int, q: int) -> int {
    scale_round(neg_conv(a, b, k, n) + if c.len() == 0 { 0 } else { neg_conv(c, d, k, n) }, p, q)
}

pub open spec fn tensor_part(a: Seq<int>, b: Seq<int>, c: Seq<int>, d: Seq<int>, n: int, p: int, q: int) -> Seq<int> {
    Seq::new(n as nat, |k: int| tensor_coef(a, b, c, d, k, n, p, q))
}

fn vec_filled(v: u64, n: usize) -> (r: Vec<u64>)
    ensures
        r@ == Seq::new(n as nat, |k: int| v),
{
    let mut out: Vec<u64> = Vec::new();
    let mut i: usize = 0;
    while i < n
        invariant
            i <= n,
            out@ == Seq::new(i as nat, |k: int| v),
        decreases n - i,
    {
        out.push(v);
        i = i + 1;
        assert(out@ =~= Seq::new(i as nat, |k: int| v));
    }
    out
}

proof fn lemma_pow_64()
    ensures
        vstd::arithmetic::power::pow(2, 64) == 0x1_0000_0000_0000_0000,
{
    reveal_with_fuel(vstd::arithmetic::power::pow, 65);
}

proof fn lemma_digit_count_bound(x: nat, b: nat, k: nat)
    requires
        b >= 2,
        x < vstd::arithmetic::power::pow(2, k),
    ensures
        digit_count(x, b) <= k,
    decreases x,
{
    if x > 0 {
        vstd::arithmetic::power::lemma_pow_positive(2, k);
        if k == 0 {
            vstd::arithmetic::power::lemma_pow0(2);
        } else {
            crate::rq::lemma_pow_succ(2, (k - 1) as nat);
            vstd::arithmetic::div_mod::lemma_div_is_ordered_by_denominator(x as int, 2, b as int);
            vstd::arithmetic::div_mod::lemma_div_decreases(x as int, b as int);
            assert(x / 2 < vstd::arithmetic::power::pow(2, (k - 1) as nat)) by {
                vstd::arithmetic::div_mod::lemma_fundamental_div_mod(x as int, 2);
                vstd::arithmetic::div_mod::lemma_mod_bound(x as int, 2);
            }
            lemma_digit_count_bound(x / b, b, (k - 1) as nat);
        }
    }
}

/// Digit `i` in base `b` of every coefficient of `x`.
pub open spec fn digit_poly(x: Seq<int>, b: int, i: nat) -> Seq<int> {
    Seq::new(x.len(), |k: int| (x[k] / vstd::arithmetic::power::pow(b, i)) % b)
}

/// The transformed digit polynomials `0 .. l` of `x` in base `b`.
pub open spec fn digits(c: NTT, x: Seq<int>, b: int, l: nat) -> Seq<Seq<int>> {
    Seq::new(l, |i: int| ntt_of(c, digit_poly(x, b, i as nat)))
}

/// Part `which` (0 or 1) of each relinearisation key.
pub open spec fn key_parts(keys: Seq<(PolynomialRingInstance, PolynomialRingInstance)>, which: int) -> Seq<Seq<int>> {
    Seq::new(keys.len(), |i: int| if which == 0 { keys[i].0@ } else { keys[i].1@ })
}

/// `start + Σ_{i < m} keys_i ⊙ ds_i`, pointwise modulo `q`.
pub open spec fn relin_sum(start: Seq<int>, keys: Seq<Seq<int>>, ds: Seq<Seq<int>>, m: nat, q: int) -> Seq<int>
    decreases m,
{
    if m == 0 {
        start
    } else {
        pw_add(relin_sum(start, keys, ds, (m - 1) as nat, q), pw_mul(keys[m - 1], ds[m - 1], q), q)
    }
}

/// `plaintext` fits the scheme: no more bits than `⌊log₂ p⌋` nor than `n`.
pub open spec fn encodable(m: nat, p: nat, n: nat) -> bool {
    bit_length(m) <= log2_floor(p) && bit_length(m) <= n
}

fn bit_length_exec(m: u64) -> (r: u64)
    ensures
        r == bit_length(m as nat),
        r <= 64,
    decreases m,
{
    if m == 0 {
        0
    } else {
        let r = bit_length_exec(m / 2);
        proof { lemma_bit_length_bound(m as nat); }
        1 + r
    }
}

proof fn lemma_bit_length_bound(m: nat)
    requires
        m <= u64::MAX,
    ensures
        bit_length(m) <= 64,
    decreases m,
{
    if m > 0 {
        lemma_pow_64();
        lemma_bit_length_small(m, 64);
    }
}

proof fn lemma_bit_length_small(m: nat, k: nat)
    requires
        m < vstd::arithmetic::power::pow(2, k),
    ensures
        bit_length(m) <= k,
    decreases m,
{
    if m > 0 {
        vstd::arithmetic::power::lemma_pow_positive(2, k);
        if k == 0 {
            vstd::arithmetic::power::lemma_pow0(2);
        } else {
            crate::rq::lemma_pow_succ(2, (k - 1) as nat);
            lemma_bit_length_small(m / 2, (k - 1) as nat);
        }
    }
}

fn log2_floor_exec(p: u64) -> (r: u64)
    ensures
        r == log2_floor(p as nat),
        r <= 64,
    decreases p,
{
    if p <= 1 {
        0
    } else {
        let r = log2_floor_exec(p / 2);
        proof { lemma_log2_bound(p as nat); }
        1 + r
    }
}

proof fn lemma_log2_bound(p: nat)
    requires
        p <= u64::MAX,
    ensures
        log2_floor(p) <= 64,
    decreases p,
{
    if p > 1 {
        lemma_log2_bound(p / 2);
        lemma_log2_le_bits(p);
        lemma_bit_length_bound(p);
    }
}

proof fn lemma_log2_le_bits(p: nat)
    ensures
        log2_floor(p) <= bit_length(p),
    decreases p,
{
    if p > 1 {
        lemma_log2_le_bits(p / 2);
    }
}

/// `round(p·x/q) mod p`, centred.
fn rescale(x: u64, p: u64, q: u64) -> (r: i64)
    requires
        x < q,
        2 <= p <= MAX_PLAINTEXT_MODULUS,
        p < q,
        q < MAX_CIPHERTEXT_MODULUS,
    ensures
        r as int == rescale_coef(x as int, p as int, q as int),
        -0x80_0000 <= r <= 0x80_0000,
{
    assert(2 * (p as int) * (x as int) <= 2 * 0x100_0000 * 0x4000_0000_0000_0000) by (nonlinear_arith)
        requires
            p <= 0x100_0000,
            x < 0x4000_0000_0000_0000,
    ;
    let num: u128 = 2 * (p as u128) * (x as u128) + q as u128;
    let den: u128 = 2 * (q as u128);
    let y: u64 = ((num / den) % (p as u128)) as u64;
    if p > 2 && y >= (p + 1) / 2 {
        y as i64 - p as i64
    } else {
        y as i64
    }
}

proof fn lemma_pow_bound(t: nat)
    requires
        t <= DECODE_DIGITS,
    ensures
        vstd::arithmetic::power::pow(2, t) <= vstd::arithmetic::power::pow(2, 100),
        vstd::arithmetic::power::pow(2, 100) == 0x10_0000_0000_0000_0000_0000_0000,
{
    vstd::arithmetic::power::lemma_pow_increases(2, t, 100);
    reveal_with_fuel(vstd::arithmetic::power::pow, 51);
    assert(vstd::arithmetic::power::pow(2, 50) == 0x4_0000_0000_0000);
    vstd::arithmetic::power::lemma_pow_adds(2, 50, 50);
}

/// The transform of the zero vector is zero, and so is its inverse.
proof fn lemma_zero_transforms(c: NTT, z: Seq<int>)
    requires
        c.wf(),
        forall|i: int| 0 <= i < z.len() ==> #[trigger] z[i] == 0,
    ensures
        ntt_of(c, z) =~= Seq::new(c.n as nat, |k: int| 0int),
        z.len() == c.n ==> intt_of(c, z) =~= Seq::new(c.n as nat, |k: int| 0int),
{
    assert forall|k: int| 0 <= k < c.n implies #[trigger] ntt_of(c, z)[k] == 0 by {
        lemma_lin_sum_zero(padded(z, c.n as nat), c.root as int, 0, crate::ntt::point_exp(k, c.negacyclic()) as nat, c.n as nat);
        lemma_small_mod(0, c.q as nat);
    }
    if z.len() == c.n {
        assert forall|j: int| 0 <= j < c.n implies #[trigger] intt_of(c, z)[j] == 0 by {
            lemma_lin_sum_zero(z, c.root_inv as int, (crate::ntt::point_exp(0, c.negacyclic()) * j) as nat,
                ((crate::ntt::point_exp(1, c.negacyclic()) - crate::ntt::point_exp(0, c.negacyclic())) * j) as nat, c.n as nat);
            assert((c.n_inv as int) * 0 == 0);
            lemma_small_mod(0, c.q as nat);
        }
    }
}

proof fn lemma_lin_sum_zero(v: Seq<int>, r: int, a: nat, b: nat, m: nat)
    requires
        m <= v.len(),
        forall|i: int| 0 <= i < v.len() ==> #[trigger] v[i] == 0,
    ensures
        crate::ntt::lin_sum(v, r, a, b, m) == 0,
    decreases m,
{
    if m > 0 {
        lemma_lin_sum_zero(v, r, a, b, (m - 1) as nat);
    }
}

/// Reading the binary digits of `m` back gives `m mod 2^(l-k)` from digit `k` on.
proof fn lemma_binary_digits(m: nat, bits: Seq<int>, k: int, l: int)
    requires
        0 <= k <= l <= bits.len(),
        forall|i: int| 0 <= i < bits.len() ==> #[trigger] bits[i] == bit(m, i as nat),
    ensures
        binary_value(bits, k, l) == (m / pow(2, k as nat) as nat) % (pow(2, (l - k) as nat) as nat),
    decreases l - k,
{
    vstd::arithmetic::power::lemma_pow_positive(2, k as nat);
    vstd::arithmetic::power::lemma_pow_positive(2, (l - k) as nat);
    if k == l {
        vstd::arithmetic::power::lemma_pow0(2);
        assert(((m / pow(2, k as nat) as nat) % 1) == 0);
    } else {
        lemma_binary_digits(m, bits, k + 1, l);
        let y = (m / pow(2, k as nat) as nat) as int;
        let z = pow(2, (l - k - 1) as nat);
        vstd::arithmetic::power::lemma_pow_positive(2, (l - k - 1) as nat);
        crate::rq::lemma_pow_succ(2, k as nat);
        vstd::arithmetic::div_mod::lemma_div_denominator(m as int, pow(2, k as nat), 2);
        vstd::arithmetic::mul::lemma_mul_is_commutative(2, pow(2, k as nat));
        assert(((k + 1) as nat) == (k as nat) + 1);
        vstd::arithmetic::div_mod::lemma_mod_breakdown(y, 2, z);
        crate::rq::lemma_pow_succ(2, (l - k - 1) as nat);
        assert(((l - k - 1) as nat) + 1 == (l - k) as nat);
        vstd::arithmetic::div_mod::lemma_div_pos_is_pos(m as int, pow(2, k as nat));
    }
}

proof fn lemma_below_bit_length(m: nat)
    ensures
        m < pow(2, bit_length(m)),
    decreases m,
{
    if m == 0 {
        vstd::arithmetic::power::lemma_pow0(2);
    } else {
        lemma_below_bit_length(m / 2);
        crate::rq::lemma_pow_succ(2, bit_length(m / 2));
        vstd::arithmetic::div_mod::lemma_fundamental_div_mod(m as int, 2);
        vstd::arithmetic::div_mod::lemma_mod_bound(m as int, 2);
    }
}

/// Without noise, decryption undoes encryption: with `u`, `e₁`, `e₂` all
/// zero, the phase of the ciphertext is `Δ·M`, which decodes to the
/// plaintext's bits, read back as the plaintext.
#[verifier::spinoff_prover]
pub proof fn lemma_noiseless_round_trip(b: BFV, m: nat, u: Seq<i64>, e1: Seq<i64>, e2: Seq<i64>,
    c0: PolynomialRingInstance, c1: PolynomialRingInstance)
    requires
        b.wf(),
        encodable(m, b.p as nat, b.n as nat),
        u.len() == b.n && e1.len() == b.n && e2.len() == b.n,
        forall|i: int| 0 <= i < b.n ==> #[trigger] u[i] == 0,
        forall|i: int| 0 <= i < b.n ==> #[trigger] e1[i] == 0,
        forall|i: int| 0 <= i < b.n ==> #[trigger] e2[i] == 0,
        ({
            let q = b.q as int;
            let ut = ntt_of(b.ctx, lift(u, q));
            &&& c0@ == intt_of(b.ctx, pw_add(pw_add(pw_mul(b.public_key.0@, ut, q),
                ntt_of(b.ctx, lift(e1, q)), q), ntt_of(b.ctx, scaled_message(m, b.delta(), b.n as nat, q)), q))
            &&& c1@ == intt_of(b.ctx, pw_add(pw_mul(b.public_key.1@, ut, q), ntt_of(b.ctx, lift(e2, q)), q))
        }),
    ensures
        ({
            let d = decoded(b.phase(seq![c0, c1]), b.p as int, b.q as int);
            let l = if b.n < DECODE_DIGITS { b.n as int } else { DECODE_DIGITS as int };
            &&& forall|k: int| l <= k < b.n ==> #[trigger] d[k] == 0
            &&& binary_value(d, 0, l) == m
        }),
{
    let q = b.q as int;
    let n = b.n as nat;
    let ctx = b.ctx;
    let zeros = Seq::new(n, |k: int| 0int);
    let msg = scaled_message(m, b.delta(), n, q);
    assert(lift(u, q) =~= zeros) by { lemma_small_mod(0, q as nat); }
    assert(lift(e1, q) =~= zeros) by { lemma_small_mod(0, q as nat); }
    assert(lift(e2, q) =~= zeros) by { lemma_small_mod(0, q as nat); }
    lemma_zero_transforms(ctx, zeros);
    let delta_ok = b.delta() < q;
    assert(delta_ok) by {
        vstd::arithmetic::div_mod::lemma_div_decreases(q, b.p as int);
    }
    assert forall|i: int| 0 <= i < n implies 0 <= #[trigger] msg[i] < q by {
        vstd::arithmetic::div_mod::lemma_mod_bound(b.delta(), q);
    }
    // the transform of the message, entries already reduced
    let nm = ntt_of(ctx, msg);
    assert forall|k: int| 0 <= k < n implies 0 <= #[trigger] nm[k] < q by {
        vstd::arithmetic::div_mod::lemma_mod_bound(crate::ntt::lin_sum(padded(msg, n), ctx.root as int, 0,
            crate::ntt::point_exp(k, ctx.negacyclic()) as nat, n), q);
    }
    assert(padded(msg, n) =~= msg);
    crate::ntt_lemmas::lemma_ntt_round_trip(ctx, msg);
    assert(nm == ctx.forward_seq(msg));
    // pointwise with zeros leaves the message's transform
    assert(pw_mul(b.public_key.0@, zeros, q) =~= zeros) by { lemma_small_mod(0, q as nat); }
    assert(pw_mul(b.public_key.1@, zeros, q) =~= zeros) by { lemma_small_mod(0, q as nat); }
    assert(pw_add(zeros, zeros, q) =~= zeros) by { lemma_small_mod(0, q as nat); }
    assert(pw_add(zeros, nm, q) =~= nm) by {
        assert forall|k: int| 0 <= k < n implies #[trigger] pw_add(zeros, nm, q)[k] == nm[k] by {
            lemma_small_mod(nm[k] as nat, q as nat);
        }
    }
    assert(c1@ =~= zeros);
    assert(c0@ =~= msg) by {
        assert forall|j: int| 0 <= j < n implies #[trigger] c0@[j] == msg[j] by {
            assert(intt_of(ctx, nm)[j] == ctx.inverse_spec(ctx.forward_seq(msg), j));
        }
    }
    // the phase is the message
    lemma_zero_transforms(ctx, c1@);
    assert(ntt_of(ctx, c1@) =~= zeros);
    assert(pw_mul(zeros, b.secret_key@, q) =~= zeros) by { lemma_small_mod(0, q as nat); }
    assert(ntt_of(ctx, c0@) == nm);
    assert(pw_add(nm, zeros, q) =~= nm) by {
        assert forall|k: int| 0 <= k < n implies #[trigger] pw_add(nm, zeros, q)[k] == nm[k] by {
            lemma_small_mod(nm[k] as nat, q as nat);
        }
    }
    let ph = b.phase(seq![c0, c1]);
    assert(seq![c0, c1][0] == c0 && seq![c0, c1][1] == c1 && seq![c0, c1].len() == 2);
    assert(ph =~= msg) by {
        assert forall|j: int| 0 <= j < n implies #[trigger] ph[j] == msg[j] by {
            assert(intt_of(ctx, nm)[j] == ctx.inverse_spec(ctx.forward_seq(msg), j));
        }
    }
    // each digit decodes to the bit
    let d = decoded(ph, b.p as int, q);
    let p = b.p as int;
    assert forall|k: int| 0 <= k < n implies #[trigger] d[k] == bit(m, k as nat) by {
        vstd::arithmetic::div_mod::lemma_mod_bound((m / pow(2, k as nat) as nat) as int, 2);
        vstd::arithmetic::power::lemma_pow_positive(2, k as nat);
        if bit(m, k as nat) == 1 {
            lemma_small_mod(b.delta() as nat, q as nat);
            lemma_rescale_delta(p, q);
        } else {
            assert(rescale_coef(0, p, q) == 0) by {
                vstd::arithmetic::div_mod::lemma_basic_div(q, 2 * q);
                lemma_small_mod(0, p as nat);
            }
        }
    }
    let l = if b.n < DECODE_DIGITS { b.n as int } else { DECODE_DIGITS as int };
    lemma_below_bit_length(m);
    lemma_log2_le_24(b.p as nat);
    assert(bit_length(m) <= l);
    vstd::arithmetic::power::lemma_pow_increases(2, bit_length(m), l as nat);
    assert forall|k: int| l <= k < b.n implies #[trigger] d[k] == 0 by {
        vstd::arithmetic::power::lemma_pow_increases(2, l as nat, k as nat);
        vstd::arithmetic::power::lemma_pow_positive(2, k as nat);
        vstd::arithmetic::div_mod::lemma_basic_div(m as int, pow(2, k as nat));
        lemma_small_mod(0, 2);
    }
    lemma_binary_digits(m, d, 0, l);
    vstd::arithmetic::power::lemma_pow0(2);
    assert(m / 1 == m);
    lemma_small_mod(m, pow(2, l as nat) as nat);
}

/// A noiseless encryption is `(Δ·M, 0)` in the coefficient basis.
#[verifier::spinoff_prover]
proof fn lemma_noiseless_ciphertext(b: BFV, m: nat, u: Seq<i64>, e1: Seq<i64>, e2: Seq<i64>,
    c0: PolynomialRingInstance, c1: PolynomialRingInstance)
    requires
        b.wf(),
        u.len() == b.n && e1.len() == b.n && e2.len() == b.n,
        forall|i: int| 0 <= i < b.n ==> #[trigger] u[i] == 0,
        forall|i: int| 0 <= i < b.n ==> #[trigger] e1[i] == 0,
        forall|i: int| 0 <= i < b.n ==> #[trigger] e2[i] == 0,
        ({
            let q = b.q as int;
            let ut = ntt_of(b.ctx, lift(u, q));
            &&& c0@ == intt_of(b.ctx, pw_add(pw_add(pw_mul(b.public_key.0@, ut, q),
                ntt_of(b.ctx, lift(e1, q)), q), ntt_of(b.ctx, scaled_message(m, b.delta(), b.n as nat, q)), q))
            &&& c1@ == intt_of(b.ctx, pw_add(pw_mul(b.public_key.1@, ut, q), ntt_of(b.ctx, lift(e2, q)), q))
        }),
    ensures
        c0@ == scaled_message(m, b.delta(), b.n as nat, b.q as int),
        c1@ == Seq::new(b.n as nat, |k: int| 0int),
{
    let q = b.q as int;
    let n = b.n as nat;
    let ctx = b.ctx;
    let zeros = Seq::new(n, |k: int| 0int);
    let msg = scaled_message(m, b.delta(), n, q);
    assert(lift(u, q) =~= zeros) by { lemma_small_mod(0, q as nat); }
    assert(lift(e1, q) =~= zeros) by { lemma_small_mod(0, q as nat); }
    assert(lift(e2, q) =~= zeros) by { lemma_small_mod(0, q as nat); }
    lemma_zero_transforms(ctx, zeros);
    assert(b.delta() < q) by {
        vstd::arithmetic::div_mod::lemma_div_decreases(q, b.p as int);
    }
    assert forall|i: int| 0 <= i < n implies 0 <= #[trigger] msg[i] < q by {
        vstd::arithmetic::div_mod::lemma_mod_bound(b.delta(), q);
    }
    let nm = ntt_of(ctx, msg);
    assert forall|k: int| 0 <= k < n implies 0 <= #[trigger] nm[k] < q by {
        vstd::arithmetic::div_mod::lemma_mod_bound(crate::ntt::lin_sum(padded(msg, n), ctx.root as int, 0,
            crate::ntt::point_exp(k, ctx.negacyclic()) as nat, n), q);
    }
    assert(padded(msg, n) =~= msg);
    crate::ntt_lemmas::lemma_ntt_round_trip(ctx, msg);
    assert(nm == ctx.forward_seq(msg));
    assert(pw_mul(b.public_key.0@, zeros, q) =~= zeros) by { lemma_small_mod(0, q as nat); }
    assert(pw_mul(b.public_key.1@, zeros, q) =~= zeros) by { lemma_small_mod(0, q as nat); }
    assert(pw_add(zeros, zeros, q) =~= zeros) by { lemma_small_mod(0, q as nat); }
    assert(pw_add(zeros, nm, q) =~= nm) by {
        assert forall|k: int| 0 <= k < n implies #[trigger] pw_add(zeros, nm, q)[k] == nm[k] by {
            lemma_small_mod(nm[k] as nat, q as nat);
        }
    }
    assert(c1@ =~= zeros);
    assert(c0@ =~= msg) by {
        assert forall|j: int| 0 <= j < n implies #[trigger] c0@[j] == msg[j] by {
            assert(intt_of(ctx, nm)[j] == ctx.inverse_spec(ctx.forward_seq(msg), j));
        }
    }
}

/// Sums over the same points add termwise.
proof fn lemma_lin_sum_add(a: Seq<int>, c: Seq<int>, r: int, e: nat, m: nat)
    requires
        m <= a.len(),
        m <= c.len(),
    ensures
        crate::ntt::lin_sum(a, r, 0, e, m) + crate::ntt::lin_sum(c, r, 0, e, m)
            == crate::ntt::lin_sum(Seq::new(a.len(), |t: int| a[t] + c[t]), r, 0, e, m),
    decreases m,
{
    if m > 0 {
        lemma_lin_sum_add(a, c, r, e, (m - 1) as nat);
        let t = m - 1;
        let x = pow(r, (0 + e * (m - 1) as nat) as nat);
        assert(a[t] * x + c[t] * x == (a[t] + c[t]) * x) by (nonlinear_arith);
    }
}

/// Reading digit sums back gives the sum of the values read.
proof fn lemma_binary_value_add(d1: Seq<int>, d2: Seq<int>, d: Seq<int>, k: int, l: int)
    requires
        0 <= k <= l <= d.len(),
        l <= d1.len(),
        l <= d2.len(),
        forall|i: int| 0 <= i < l ==> #[trigger] d[i] == d1[i] + d2[i],
    ensures
        binary_value(d, k, l) == binary_value(d1, k, l) + binary_value(d2, k, l),
    decreases l - k,
{
    if k < l {
        lemma_binary_value_add(d1, d2, d, k + 1, l);
    }
}

/// Without noise, decrypting the sum of two ciphertexts gives the sum of
/// their plaintexts, when `p ≥ 5` and `q ≥ 4p` leave room for the carries.
#[verifier::spinoff_prover]
pub proof fn lemma_noiseless_addition(b: BFV, m1: nat, m2: nat, u: Seq<i64>, e1: Seq<i64>, e2: Seq<i64>,
    c1: (PolynomialRingInstance, PolynomialRingInstance), c2: (PolynomialRingInstance, PolynomialRingInstance),
    s: (PolynomialRingInstance, PolynomialRingInstance))
    requires
        b.wf(),
        5 <= b.p,
        4 * b.p <= b.q,
        encodable(m1, b.p as nat, b.n as nat),
        encodable(m2, b.p as nat, b.n as nat),
        u.len() == b.n && e1.len() == b.n && e2.len() == b.n,
        forall|i: int| 0 <= i < b.n ==> #[trigger] u[i] == 0,
        forall|i: int| 0 <= i < b.n ==> #[trigger] e1[i] == 0,
        forall|i: int| 0 <= i < b.n ==> #[trigger] e2[i] == 0,
        ({
            let q = b.q as int;
            let ut = ntt_of(b.ctx, lift(u, q));
            &&& c1.0@ == intt_of(b.ctx, pw_add(pw_add(pw_mul(b.public_key.0@, ut, q),
                ntt_of(b.ctx, lift(e1, q)), q), ntt_of(b.ctx, scaled_message(m1, b.delta(), b.n as nat, q)), q))
            &&& c1.1@ == intt_of(b.ctx, pw_add(pw_mul(b.public_key.1@, ut, q), ntt_of(b.ctx, lift(e2, q)), q))
            &&& c2.0@ == intt_of(b.ctx, pw_add(pw_add(pw_mul(b.public_key.0@, ut, q),
                ntt_of(b.ctx, lift(e1, q)), q), ntt_of(b.ctx, scaled_message(m2, b.delta(), b.n as nat, q)), q))
            &&& c2.1@ == intt_of(b.ctx, pw_add(pw_mul(b.public_key.1@, ut, q), ntt_of(b.ctx, lift(e2, q)), q))
            &&& s.0@ == intt_of(b.ctx, pw_add(ntt_of(b.ctx, c1.0@), ntt_of(b.ctx, c2.0@), q))
            &&& s.1@ == intt_of(b.ctx, pw_add(ntt_of(b.ctx, c1.1@), ntt_of(b.ctx, c2.1@), q))
        }),
    ensures
        ({
            let d = decoded(b.phase(seq![s.0, s.1]), b.p as int, b.q as int);
            let l = if b.n < DECODE_DIGITS { b.n as int } else { DECODE_DIGITS as int };
            &&& forall|k: int| l <= k < b.n ==> #[trigger] d[k] == 0
            &&& binary_value(d, 0, l) == m1 + m2
        }),
{
    let q = b.q as int;
    let n = b.n as nat;
    let ctx = b.ctx;
    let p = b.p as int;
    let zeros = Seq::new(n, |k: int| 0int);
    assert(forall|i: int| 0 <= i < b.n ==> #[trigger] u[i] == 0);
    assert(forall|i: int| 0 <= i < b.n ==> #[trigger] e1[i] == 0);
    assert(forall|i: int| 0 <= i < b.n ==> #[trigger] e2[i] == 0);
    let ut = ntt_of(b.ctx, lift(u, q));
    let part0 = pw_add(pw_mul(b.public_key.0@, ut, q), ntt_of(b.ctx, lift(e1, q)), q);
    let part1 = intt_of(b.ctx, pw_add(pw_mul(b.public_key.1@, ut, q), ntt_of(b.ctx, lift(e2, q)), q));
    assert(c1.0@ == intt_of(b.ctx, pw_add(part0, ntt_of(b.ctx, scaled_message(m1, b.delta(), n, q)), q)));
    assert(c1.1@ == part1);
    lemma_noiseless_ciphertext(b, m1, u, e1, e2, c1.0, c1.1);
    assert(c2.0@ == intt_of(b.ctx, pw_add(part0, ntt_of(b.ctx, scaled_message(m2, b.delta(), n, q)), q)));
    assert(c2.1@ == part1);
    lemma_noiseless_ciphertext(b, m2, u, e1, e2, c2.0, c2.1);
    let ma = scaled_message(m1, b.delta(), n, q);
    let mb = scaled_message(m2, b.delta(), n, q);
    let msum = Seq::new(n, |i: int| (ma[i] + mb[i]) % q);
    lemma_zero_transforms(ctx, zeros);
    assert(pw_add(zeros, zeros, q) =~= zeros) by { lemma_small_mod(0, q as nat); }
    assert(s.1@ =~= zeros);
    // the transforms add
    assert forall|k: int| 0 <= k < n implies #[trigger] pw_add(ntt_of(ctx, ma), ntt_of(ctx, mb), q)[k] == ntt_of(ctx, msum)[k] by {
        let e = crate::ntt::point_exp(k, ctx.negacyclic()) as nat;
        let r = ctx.root as int;
        assert(padded(ma, n) =~= ma);
        assert(padded(mb, n) =~= mb);
        assert(padded(msum, n) =~= msum);
        let la = crate::ntt::lin_sum(ma, r, 0, e, n);
        let lb = crate::ntt::lin_sum(mb, r, 0, e, n);
        lemma_lin_sum_add(ma, mb, r, e, n);
        vstd::arithmetic::div_mod::lemma_add_mod_noop(la, lb, q);
        let sumseq = Seq::new(ma.len(), |t: int| ma[t] + mb[t]);
        assert forall|t: int| 0 <= t < n implies #[trigger] sumseq[t] % q == msum[t] % q by {
            vstd::arithmetic::div_mod::lemma_mod_twice(ma[t] + mb[t], q);
        }
        crate::butterfly::lemma_entries_mod(sumseq, msum, r, e, n, q);
    }
    assert(pw_add(ntt_of(ctx, ma), ntt_of(ctx, mb), q) =~= ntt_of(ctx, msum));
    assert forall|i: int| 0 <= i < n implies 0 <= #[trigger] msum[i] < q by {
        vstd::arithmetic::div_mod::lemma_mod_bound(ma[i] + mb[i], q);
    }
    assert(padded(msum, n) =~= msum);
    crate::ntt_lemmas::lemma_ntt_round_trip(ctx, msum);
    let nm = ntt_of(ctx, msum);
    assert(nm == ctx.forward_seq(msum));
    assert(s.0@ =~= msum) by {
        assert forall|j: int| 0 <= j < n implies #[trigger] s.0@[j] == msum[j] by {
            assert(intt_of(ctx, nm)[j] == ctx.inverse_spec(ctx.forward_seq(msum), j));
        }
    }
    // the phase is the summed message
    assert forall|k: int| 0 <= k < n implies 0 <= #[trigger] nm[k] < q by {
        vstd::arithmetic::div_mod::lemma_mod_bound(crate::ntt::lin_sum(padded(msum, n), ctx.root as int, 0,
            crate::ntt::point_exp(k, ctx.negacyclic()) as nat, n), q);
    }
    lemma_zero_transforms(ctx, s.1@);
    assert(ntt_of(ctx, s.1@) =~= zeros);
    assert(pw_mul(zeros, b.secret_key@, q) =~= zeros) by { lemma_small_mod(0, q as nat); }
    assert(pw_add(nm, zeros, q) =~= nm) by {
        assert forall|k: int| 0 <= k < n implies #[trigger] pw_add(nm, zeros, q)[k] == nm[k] by {
            lemma_small_mod(nm[k] as nat, q as nat);
        }
    }
    let ph = b.phase(seq![s.0, s.1]);
    assert(seq![s.0, s.1][0] == s.0 && seq![s.0, s.1][1] == s.1 && seq![s.0, s.1].len() == 2);
    assert(ph =~= msum) by {
        assert forall|j: int| 0 <= j < n implies #[trigger] ph[j] == msum[j] by {
            assert(intt_of(ctx, nm)[j] == ctx.inverse_spec(ctx.forward_seq(msum), j));
        }
    }
    // digits are the bit sums
    let d = decoded(ph, p, q);
    let dl = b.delta();
    assert(dl >= 4 && 2 * dl < q) by {
        vstd::arithmetic::div_mod::lemma_fundamental_div_mod(q, p);
        vstd::arithmetic::div_mod::lemma_mod_bound(q, p);
        assert(dl >= 4) by (nonlinear_arith)
            requires q == p * dl + q % p, 0 <= q % p < p, 4 * p <= q, p >= 5;
        assert(2 * dl < q) by (nonlinear_arith)
            requires q == p * dl + q % p, 0 <= q % p, p >= 5, dl >= 4;
    }
    let bits1 = Seq::new(n, |k: int| bit(m1, k as nat));
    let bits2 = Seq::new(n, |k: int| bit(m2, k as nat));
    assert forall|k: int| 0 <= k < n implies #[trigger] d[k] == bits1[k] + bits2[k] by {
        vstd::arithmetic::power::lemma_pow_positive(2, k as nat);
        vstd::arithmetic::div_mod::lemma_mod_bound((m1 / pow(2, k as nat) as nat) as int, 2);
        vstd::arithmetic::div_mod::lemma_mod_bound((m2 / pow(2, k as nat) as nat) as int, 2);
        lemma_small_mod(dl as nat, q as nat);
        lemma_small_mod(0, q as nat);
        let c = bit(m1, k as nat) + bit(m2, k as nat);
        assert(dl % q == dl);
        assert(ma[k] == bit(m1, k as nat) * dl) by {
            let bb = bit(m1, k as nat);
            if bb == 1 {
                assert(ma[k] == dl % q);
                assert(bb * dl == dl) by (nonlinear_arith) requires bb == 1;
            } else {
                assert(bb == 0);
                assert(ma[k] == 0);
                assert(bb * dl == 0) by (nonlinear_arith) requires bb == 0;
            }
        }
        assert(mb[k] == bit(m2, k as nat) * dl) by {
            let bb = bit(m2, k as nat);
            if bb == 1 {
                assert(mb[k] == dl % q);
                assert(bb * dl == dl) by (nonlinear_arith) requires bb == 1;
            } else {
                assert(bb == 0);
                assert(mb[k] == 0);
                assert(bb * dl == 0) by (nonlinear_arith) requires bb == 0;
            }
        }
        assert(ma[k] + mb[k] == c * dl) by (nonlinear_arith)
            requires ma[k] == bit(m1, k as nat) * dl, mb[k] == bit(m2, k as nat) * dl, c == bit(m1, k as nat) + bit(m2, k as nat);
        assert(msum[k] == (c * dl) % q);
        if c == 0 {
            assert(rescale_coef(0, p, q) == 0) by {
                vstd::arithmetic::div_mod::lemma_basic_div(q, 2 * q);
                lemma_small_mod(0, p as nat);
            }
        } else if c == 1 {
            lemma_rescale_delta(p, q);
        } else {
            lemma_small_mod((2 * dl) as nat, q as nat);
            lemma_rescale_two_delta(p, q);
        }
    }
    let l = if b.n < DECODE_DIGITS { b.n as int } else { DECODE_DIGITS as int };
    lemma_below_bit_length(m1);
    lemma_below_bit_length(m2);
    lemma_log2_le_24(b.p as nat);
    vstd::arithmetic::power::lemma_pow_increases(2, bit_length(m1), l as nat);
    vstd::arithmetic::power::lemma_pow_increases(2, bit_length(m2), l as nat);
    assert forall|k: int| l <= k < b.n implies #[trigger] d[k] == 0 by {
        vstd::arithmetic::power::lemma_pow_increases(2, l as nat, k as nat);
        vstd::arithmetic::power::lemma_pow_positive(2, k as nat);
        vstd::arithmetic::div_mod::lemma_basic_div(m1 as int, pow(2, k as nat));
        vstd::arithmetic::div_mod::lemma_basic_div(m2 as int, pow(2, k as nat));
        lemma_small_mod(0, 2);
        assert(bits1[k] == 0 && bits2[k] == 0);
    }
    lemma_binary_value_add(bits1, bits2, d, 0, l);
    lemma_binary_digits(m1, bits1, 0, l);
    lemma_binary_digits(m2, bits2, 0, l);
    vstd::arithmetic::power::lemma_pow0(2);
    assert(m1 / 1 == m1 && m2 / 1 == m2);
    lemma_small_mod(m1, pow(2, l as nat) as nat);
    lemma_small_mod(m2, pow(2, l as nat) as nat);
}

/// `round(p·2Δ/q) mod p = 2` for `Δ = ⌊q/p⌋`, `p ≥ 5` and `q ≥ 4p`.
proof fn lemma_rescale_two_delta(p: int, q: int)
    requires
        5 <= p,
        4 * p <= q,
    ensures
        rescale_coef(2 * (q / p), p, q) == 2,
{
    let dl = q / p;
    vstd::arithmetic::div_mod::lemma_fundamental_div_mod(q, p);
    vstd::arithmetic::div_mod::lemma_mod_bound(q, p);
    let num = 2 * p * (2 * dl) + q;
    assert(4 * q <= num < 6 * q) by (nonlinear_arith)
        requires q == p * dl + q % p, 0 <= q % p < p, 4 * p <= q, num == 2 * p * (2 * dl) + q;
    vstd::arithmetic::div_mod::lemma_fundamental_div_mod_converse(num, 2 * q, 2, num - 4 * q);
    lemma_small_mod(2, p as nat);
}

proof fn lemma_log2_le_24(p: nat)
    requires
        p <= MAX_PLAINTEXT_MODULUS,
    ensures
        log2_floor(p) <= 24,
{
    lemma_log2_le_bits(p);
    lemma_pow_25();
    lemma_bit_length_small(p, 25);
    if log2_floor(p) == 25 {
        lemma_log2_exact(p);
    }
}

proof fn lemma_pow_25()
    ensures
        pow(2, 25) == 0x200_0000,
{
    reveal_with_fuel(pow, 26);
}

proof fn lemma_log2_exact(p: nat)
    ensures
        p >= 1 ==> pow(2, log2_floor(p)) <= p,
    decreases p,
{
    if p > 1 {
        lemma_log2_exact(p / 2);
        crate::rq::lemma_pow_succ(2, log2_floor(p / 2));
        vstd::arithmetic::div_mod::lemma_fundamental_div_mod(p as int, 2);
    } else if p == 1 {
        vstd::arithmetic::power::lemma_pow0(2);
    }
}

/// `round(p·Δ/q) mod p = 1` for `Δ = ⌊q/p⌋` and `2 ≤ p < q`.
proof fn lemma_rescale_delta(p: int, q: int)
    requires
        2 <= p < q,
    ensures
        rescale_coef(q / p, p, q) == 1,
{
    let dl = q / p;
    vstd::arithmetic::div_mod::lemma_fundamental_div_mod(q, p);
    vstd::arithmetic::div_mod::lemma_mod_bound(q, p);
    let num = 2 * p * dl + q;
    vstd::arithmetic::div_mod::lemma_div_is_ordered(p, q, p);
    vstd::arithmetic::div_mod::lemma_div_multiples_vanish(1, p);
    assert(p / p == 1);
    assert(2 * q <= num < 4 * q) by (nonlinear_arith)
        requires q == p * dl + q % p, 0 <= q % p < p, p < q, p >= 2, dl >= 1, num == 2 * p * dl + q;
    vstd::arithmetic::div_mod::lemma_fundamental_div_mod_converse(num, 2 * q, 1, num - 2 * q);
    lemma_small_mod(1, p as nat);
}

} // verus!
