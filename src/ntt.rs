use vstd::prelude::*;
use rand::Rng;
use vstd::arithmetic::div_mod::{lemma_add_mod_noop, lemma_mod_bound, lemma_mul_mod_noop_general,
    lemma_small_mod};
use vstd::arithmetic::power::{pow, lemma_pow_adds, lemma_pow_multiplies};
use crate::error::AlgebraError;
use crate::upoly::ints;
use crate::zq::{add_mod, inv_mod, mul_mod, pow_mod, valid_modulus, lemma_prime_units};

verus! {

/// How the transform is organised. Every variant evaluates at the same
/// points: the cyclic ones at the powers of an `N`-th root of unity, the
/// negacyclic one at the odd powers of a `2N`-th root.
#[derive(Debug, Clone, Copy, PartialEq, Eq, Structural)]
#[allow(non_camel_case_types)]
pub enum NTT_Algorithm {
    Naive,
    CooleyTukey,
    Iterative,
    NegativeConvolution,
}

/// `n > 1` has no divisor strictly between one and itself.
pub open spec fn is_prime(n: int) -> bool {
    n > 1 && forall|d: int| 1 < d < n ==> #[trigger] (n % d) != 0
}

/// Relies on num_prime::nt_funcs::is_prime64, a deterministic primality test on `u64`.
#[verifier::external_body]
fn prime_test(n: u64) -> (r: bool)
    ensures
        r == is_prime(n as int),
{
    num_prime::nt_funcs::is_prime64(n)
}

/// `n` is a power of two.
pub open spec fn is_pow2(n: nat) -> bool
    decreases n,
{
    if n == 1 {
        true
    } else if n == 0 || n % 2 == 1 {
        false
    } else {
        is_pow2(n / 2)
    }
}

/// The exponent of the `k`-th evaluation point: `2k + 1` for the negacyclic
/// transform (odd powers of a `2N`-th root), `k` for the cyclic ones.
pub open spec fn point_exp(k: int, negacyclic: bool) -> int {
    if negacyclic {
        2 * k + 1
    } else {
        k
    }
}

/// `Σ_{t < m} v_t · r^(a + b·t)`.
pub open spec fn lin_sum(v: Seq<int>, r: int, a: nat, b: nat, m: nat) -> int
    decreases m,
{
    if m == 0 {
        0
    } else {
        lin_sum(v, r, a, b, (m - 1) as nat) + v[m - 1] * pow(r, a + b * (m - 1) as nat)
    }
}

/// The `k`-th output of the forward transform: `v` evaluated at `root^point_exp(k)`.
pub open spec fn forward_coef(v: Seq<int>, root: int, negacyclic: bool, k: int, q: int) -> int {
    lin_sum(v, root, 0, point_exp(k, negacyclic) as nat, v.len()) % q
}

/// The `j`-th output of the inverse transform:
/// `n⁻¹ · Σ_t w_t · root_inv^(point_exp(t) · j)`.
pub open spec fn inverse_coef(w: Seq<int>, root_inv: int, n_inv: int, negacyclic: bool, j: int, q: int) -> int {
    (n_inv * lin_sum(w, root_inv, (point_exp(0, negacyclic) * j) as nat,
        ((point_exp(1, negacyclic) - point_exp(0, negacyclic)) * j) as nat, w.len())) % q
}

/// The parameters `NTT::new` accepts: `q` a prime in range, `n` a power of
/// two, and `root` of order exactly `n` (or `2n` for the negacyclic transform)
/// modulo `q`, that order dividing `q - 1`.
pub open spec fn valid_ntt_params(n: usize, q: u64, root: u64, ntt_algorithm: NTT_Algorithm) -> bool {
    let neg = ntt_algorithm == NTT_Algorithm::NegativeConvolution;
    let order: int = if neg { 2 * n } else { n as int };
    &&& valid_modulus(q as int)
    &&& is_prime(q as int)
    &&& n >= 1
    &&& is_pow2(n as nat)
    &&& (q - 1) % order == 0
    &&& root < q
    &&& pow(root as int, order as nat) % (q as int) == 1
    &&& (order > 1 ==> pow(root as int, (order / 2) as nat) % (q as int) == q - 1)
}

/// A transform context: length `n`, prime modulus `q`, a root of unity of
/// order `n` (cyclic) or `2n` (negacyclic), its inverse, and `n⁻¹ mod q`.
#[derive(Debug, Clone, Copy, PartialEq, Eq, Structural)]
pub struct NTT {
    pub n: usize,
    pub q: u64,
    pub root: u64,
    pub root_inv: u64,
    pub n_inv: u64,
    pub ntt_algorithm: NTT_Algorithm,
}

impl NTT {
    pub open spec fn negacyclic(&self) -> bool {
        self.ntt_algorithm == NTT_Algorithm::NegativeConvolution
    }

    /// The order the root must have.
    pub open spec fn order(&self) -> int {
        if self.negacyclic() {
            2 * self.n
        } else {
            self.n as int
        }
    }

    pub open spec fn wf(&self) -> bool {
        &&& valid_modulus(self.q as int)
        &&& is_prime(self.q as int)
        &&& self.n >= 1
        &&& is_pow2(self.n as nat)
        &&& (self.q - 1) % self.order() == 0
        &&& self.root < self.q
        &&& self.root_inv < self.q
        &&& self.n_inv < self.q
        &&& pow(self.root as int, self.order() as nat) % (self.q as int) == 1
        &&& (self.order() > 1 ==> pow(self.root as int, (self.order() / 2) as nat) % (self.q as int) == self.q - 1)
        &&& (self.root * self.root_inv) % (self.q as int) == 1
        &&& (self.n * self.n_inv) % (self.q as int) == 1
    }

    /// The `k`-th output of the forward transform of `v` under this context.
    pub open spec fn forward_spec(&self, v: Seq<int>, k: int) -> int {
        forward_coef(v, self.root as int, self.negacyclic(), k, self.q as int)
    }

    /// The whole forward transform of `v`.
    pub open spec fn forward_seq(&self, v: Seq<int>) -> Seq<int> {
        Seq::new(self.n as nat, |k: int| self.forward_spec(v, k))
    }

    /// The `j`-th output of the inverse transform of `w` under this context.
    pub open spec fn inverse_spec(&self, w: Seq<int>, j: int) -> int {
        inverse_coef(w, self.root_inv as int, self.n_inv as int, self.negacyclic(), j, self.q as int)
    }
}

proof fn lemma_zero_pow(e: nat)
    requires
        e >= 1,
    ensures
        pow(0, e) == 0,
{
    reveal(pow);
    lemma_pow_adds(0, (e - 1) as nat, 1);
    assert(pow(0, 1) == 0 * pow(0, 0));
}

/// Power-of-two test.
fn is_power_of_two(n: usize) -> (r: bool)
    ensures
        r == is_pow2(n as nat),
    decreases n,
{
    if n == 1 {
        true
    } else if n == 0 || n % 2 == 1 {
        false
    } else {
        is_power_of_two(n / 2)
    }
}

/// `Σ_t v_t · r^(a + b·t) mod q`, given `r^a` and `r^b` modulo `q`.
fn lin_eval(v: &Vec<u64>, r: Ghost<int>, a: Ghost<nat>, b: Ghost<nat>, ra: u64, rb: u64, q: u64) -> (acc: u64)
    requires
        valid_modulus(q as int),
        ra as int == pow(r@, a@) % (q as int),
        rb as int == pow(r@, b@) % (q as int),
        forall|i: int| 0 <= i < v@.len() ==> v@[i] < q,
    ensures
        acc as int == lin_sum(ints(v@), r@, a@, b@, v@.len()) % (q as int),
        acc < q,
{
    let mut acc: u64 = 0;
    let mut p: u64 = ra;
    let mut t: usize = 0;
    proof {
        lemma_small_mod(0, q as nat);
        lemma_mod_bound(pow(r@, a@), q as int);
        assert(a@ + b@ * 0 == a@);
    }
    while t < v.len()
        invariant
            valid_modulus(q as int),
            rb as int == pow(r@, b@) % (q as int),
            forall|i: int| 0 <= i < v@.len() ==> v@[i] < q,
            t <= v@.len(),
            acc < q,
            p < q,
            p as int == pow(r@, a@ + b@ * t as nat) % (q as int),
            acc as int == lin_sum(ints(v@), r@, a@, b@, t as nat) % (q as int),
        decreases v@.len() - t,
    {
        let term = mul_mod(v[t], p, q);
        proof {
            let e = a@ + b@ * t as nat;
            let x = pow(r@, e);
            assert(ints(v@)[t as int] == v@[t as int] as int);
            lemma_mul_mod_noop_general(v@[t as int] as int, x, q as int);
            lemma_add_mod_noop(lin_sum(ints(v@), r@, a@, b@, t as nat), v@[t as int] * x, q as int);
            lemma_small_mod(acc as nat, q as nat);
            lemma_small_mod(term as nat, q as nat);
        }
        acc = add_mod(acc, term, q);
        proof {
            let e = a@ + b@ * t as nat;
            lemma_pow_adds(r@, e, b@);
            assert(e + b@ == a@ + b@ * (t + 1) as nat) by (nonlinear_arith)
                requires e == a@ + b@ * t as nat;
            lemma_mul_mod_noop_general(pow(r@, e), pow(r@, b@), q as int);
        }
        p = mul_mod(p, rb, q);
        t = t + 1;
    }
    acc
}

impl NTT {
    /// Builds a context for length `n` over `Z/qZ` from a root of the order the
    /// algorithm needs (`n`, or `2n` for `NegativeConvolution`).
    /// `BadParameters` when `q` is not a prime in range, `n` is not a power of
    /// two, the order does not divide `q - 1`, or `root` has another order.
    pub fn new(n: usize, q: u64, root: u64, ntt_algorithm: NTT_Algorithm) -> (r: Result<NTT, AlgebraError>)
        ensures
            r matches Ok(c) ==> c.wf() && c.n == n && c.q == q && c.root == root
                && c.ntt_algorithm == ntt_algorithm,
            r matches Err(e) ==> e == AlgebraError::BadParameters,
            r is Ok <==> valid_ntt_params(n, q, root, ntt_algorithm),
    {
        if q == 0 || q >= crate::zq::MAX_MODULUS || !prime_test(q) || n == 0 || !is_power_of_two(n) {
            return Err(AlgebraError::BadParameters);
        }
        let neg = ntt_algorithm == NTT_Algorithm::NegativeConvolution;
        if n as u128 >= 0x7fff_ffff_ffff_ffff {
            proof {
                let order: int = if neg { 2 * n } else { n as int };
                lemma_small_mod((q - 1) as nat, order as nat);
            }
            return Err(AlgebraError::BadParameters);
        }
        let order: u64 = if neg { 2 * (n as u64) } else { n as u64 };
        if (q - 1) % order != 0 || root >= q {
            return Err(AlgebraError::BadParameters);
        }
        if pow_mod(root, order, q) != 1 {
            return Err(AlgebraError::BadParameters);
        }
        if order > 1 && pow_mod(root, order / 2, q) != q - 1 {
            return Err(AlgebraError::BadParameters);
        }
        proof {
            if order > q - 1 {
                lemma_small_mod((q - 1) as nat, order as nat);
            }
            assert(n < q);
            lemma_small_mod(n as nat, q as nat);
            if root == 0 {
                lemma_zero_pow(order as nat);
                lemma_small_mod(0, q as nat);
                assert(false);
            }
            assert(0 < root < q);
        }
        let root_inv = match inv_mod(root, q) {
            Some(y) => y,
            None => { proof { lemma_prime_units(q as int, root as int); } return Err(AlgebraError::BadParameters); },
        };
        let n_red: u64 = (n as u64) % q;
        let n_inv = match inv_mod(n_red, q) {
            Some(y) => y,
            None => { proof { lemma_prime_units(q as int, n_red as int); } return Err(AlgebraError::BadParameters); },
        };
        proof {
            lemma_small_mod(1, q as nat);
            lemma_small_mod(root as nat, q as nat);
            lemma_mul_mod_noop_general(n as int, n_inv as int, q as int);
        }
        Ok(NTT { n, q, root, root_inv, n_inv, ntt_algorithm })
    }

    /// The forward transform: output `k` is the input evaluated at the `k`-th point.
    /// `LengthMismatch` when the input does not hold exactly `n` residues.
    #[verifier::spinoff_prover]
    pub fn to_ntt(&self, coefficients: &Vec<u64>) -> (r: Result<Vec<u64>, AlgebraError>)
        requires
            self.wf(),
            forall|i: int| 0 <= i < coefficients@.len() ==> coefficients@[i] < self.q,
        ensures
            r is Err <==> coefficients@.len() != self.n,
            r matches Err(e) ==> e == AlgebraError::LengthMismatch,
            r matches Ok(w) ==> w@.len() == self.n
                && forall|k: int| 0 <= k < self.n ==> #[trigger] w@[k] as int == self.forward_spec(ints(coefficients@), k),
            r matches Ok(w) ==> forall|k: int| 0 <= k < w@.len() ==> #[trigger] w@[k] < self.q,
    {
        if coefficients.len() != self.n {
            return Err(AlgebraError::LengthMismatch);
        }
        if self.ntt_algorithm != NTT_Algorithm::Naive {
            return Ok(self.to_ntt_butterflies(coefficients));
        }
        let q = self.q;
        let neg = self.ntt_algorithm == NTT_Algorithm::NegativeConvolution;
        let mut out: Vec<u64> = Vec::new();
        let mut k: usize = 0;
        while k < self.n
            invariant
                self.wf(),
                q == self.q,
                neg == self.negacyclic(),
                coefficients@.len() == self.n,
                forall|i: int| 0 <= i < coefficients@.len() ==> coefficients@[i] < q,
                k <= self.n,
                out@.len() == k,
                forall|j: int| 0 <= j < k ==> #[trigger] out@[j] as int == self.forward_spec(ints(coefficients@), j),
                forall|j: int| 0 <= j < k ==> #[trigger] out@[j] < q,
            decreases self.n - k,
        {
            assert(self.n < q) by {
                if self.order() > q - 1 {
                    lemma_small_mod((q - 1) as nat, self.order() as nat);
                }
            }
            let e: u64 = if neg { 2 * (k as u64) + 1 } else { k as u64 };
            let ra = pow_mod(self.root, 0, q);
            let rb = pow_mod(self.root, e, q);
            let v = lin_eval(coefficients, Ghost(self.root as int), Ghost(0), Ghost(e as nat), ra, rb, q);
            out.push(v);
            k = k + 1;
        }
        Ok(out)
    }

    /// The inverse transform, scaled by `n⁻¹`.
    /// `LengthMismatch` when the input does not hold exactly `n` residues.
    #[verifier::spinoff_prover]
    pub fn from_ntt(&self, values: &Vec<u64>) -> (r: Result<Vec<u64>, AlgebraError>)
        requires
            self.wf(),
            forall|i: int| 0 <= i < values@.len() ==> values@[i] < self.q,
        ensures
            r is Err <==> values@.len() != self.n,
            r matches Err(e) ==> e == AlgebraError::LengthMismatch,
            r matches Ok(w) ==> w@.len() == self.n
                && forall|j: int| 0 <= j < self.n ==> #[trigger] w@[j] as int == self.inverse_spec(ints(values@), j),
            r matches Ok(w) ==> forall|k: int| 0 <= k < w@.len() ==> #[trigger] w@[k] < self.q,
    {
        if values.len() != self.n {
            return Err(AlgebraError::LengthMismatch);
        }
        if self.ntt_algorithm != NTT_Algorithm::Naive {
            return Ok(self.from_ntt_butterflies(values));
        }
        let q = self.q;
        let neg = self.ntt_algorithm == NTT_Algorithm::NegativeConvolution;
        let mut out: Vec<u64> = Vec::new();
        let mut j: usize = 0;
        while j < self.n
            invariant
                self.wf(),
                q == self.q,
                neg == self.negacyclic(),
                values@.len() == self.n,
                forall|i: int| 0 <= i < values@.len() ==> values@[i] < q,
                j <= self.n,
                out@.len() == j,
                forall|t: int| 0 <= t < j ==> #[trigger] out@[t] as int == self.inverse_spec(ints(values@), t),
                forall|t: int| 0 <= t < j ==> #[trigger] out@[t] < q,
            decreases self.n - j,
        {
            assert(self.n < q) by {
                if self.order() > q - 1 {
                    lemma_small_mod((q - 1) as nat, self.order() as nat);
                }
            }
            let a: u64 = if neg { j as u64 } else { 0 };
            let b: u64 = if neg { 2 * (j as u64) } else { j as u64 };
            let ra = pow_mod(self.root_inv, a, q);
            let rb = pow_mod(self.root_inv, b, q);
            let s = lin_eval(values, Ghost(self.root_inv as int), Ghost(a as nat), Ghost(b as nat), ra, rb, q);
            let v = mul_mod(self.n_inv, s, q);
            proof {
                let ls = lin_sum(ints(values@), self.root_inv as int, a as nat, b as nat, values@.len());
                lemma_mul_mod_noop_general(self.n_inv as int, ls, q as int);
                if neg {
                    assert(point_exp(0, neg) == 1 && point_exp(1, neg) == 3);
                    assert((point_exp(0, neg) * j) as nat == a as nat);
                    assert(((point_exp(1, neg) - point_exp(0, neg)) * j) as nat == b as nat);
                } else {
                    assert(point_exp(0, neg) == 0 && point_exp(1, neg) == 1);
                    assert((point_exp(0, neg) * j) as nat == a as nat);
                    assert(((point_exp(1, neg) - point_exp(0, neg)) * j) as nat == b as nat);
                }
            }
            out.push(v);
            j = j + 1;
        }
        Ok(out)
    }
}

impl NTT {
    proof fn lemma_small_n(&self)
        requires
            self.wf(),
        ensures
            self.n < self.q,
            self.q > 1,
            self.order() >= 2 ==> self.q > 2,
    {
        if self.order() > self.q - 1 {
            lemma_small_mod((self.q - 1) as nat, self.order() as nat);
        }
    }

    /// The forward transform by butterflies: for the cyclic contexts the
    /// radix-2 transform at `root`; for the negacyclic one the input is first
    /// twisted by the powers of `root` and transformed at `root²`.
    #[verifier::spinoff_prover]
    fn to_ntt_butterflies(&self, v: &Vec<u64>) -> (r: Vec<u64>)
        requires
            self.wf(),
            v@.len() == self.n,
            forall|i: int| 0 <= i < v@.len() ==> v@[i] < self.q,
        ensures
            r@.len() == self.n,
            forall|k: int| 0 <= k < self.n ==> #[trigger] r@[k] as int == self.forward_spec(ints(v@), k),
            forall|k: int| 0 <= k < r@.len() ==> #[trigger] r@[k] < self.q,
    {
        let q = self.q;
        let n = self.n;
        proof { self.lemma_small_n(); }
        if self.ntt_algorithm != NTT_Algorithm::NegativeConvolution {
            proof {
                assert forall|i: int| 0 <= i < v@.len() implies #[trigger] v@[i] < q by {}
            }
            let r = crate::butterfly::cooley_tukey(v, self.root, q);
            proof {
                assert forall|k: int| 0 <= k < n implies #[trigger] r@[k] as int == self.forward_spec(ints(v@), k) by {
                    assert(point_exp(k, false) == k);
                }
            }
            return r;
        }
        // twist: entry t times root^t
        let mut tw: Vec<u64> = Vec::new();
        let mut pw: u64 = 1 % q;
        let mut t: usize = 0;
        proof { vstd::arithmetic::power::lemma_pow0(self.root as int); lemma_small_mod(1, q as nat); }
        while t < n
            invariant
                self.wf(),
                q == self.q,
                n == self.n,
                v@.len() == n,
                forall|i: int| 0 <= i < v@.len() ==> v@[i] < q,
                t <= n,
                tw@.len() == t,
                pw < q,
                pw as int == pow(self.root as int, t as nat) % (q as int),
                forall|i: int| 0 <= i < t ==> #[trigger] tw@[i] < q,
                forall|i: int| 0 <= i < t ==> #[trigger] tw@[i] as int % (q as int)
                    == crate::butterfly::twisted(ints(v@), self.root as int)[i] % (q as int),
            decreases n - t,
        {
            let x = mul_mod(v[t], pw, q);
            proof {
                assert(ints(v@)[t as int] == v@[t as int] as int);
                lemma_mul_mod_noop_general(v@[t as int] as int, pow(self.root as int, t as nat), q as int);
                lemma_small_mod(x as nat, q as nat);
                lemma_pow_adds(self.root as int, t as nat, 1);
                vstd::arithmetic::power::lemma_pow1(self.root as int);
                lemma_mul_mod_noop_general(pow(self.root as int, t as nat), self.root as int, q as int);
                lemma_small_mod(self.root as nat, q as nat);
            }
            tw.push(x);
            pw = mul_mod(pw, self.root, q);
            t = t + 1;
        }
        let w = mul_mod(self.root, self.root, q);
        proof {
            let r = self.root as int;
            assert(pow(r, 2) == r * r) by {
                lemma_pow_adds(r, 1, 1);
                vstd::arithmetic::power::lemma_pow1(r);
            }
            lemma_pow_multiplies(r, 2, n as nat);
            vstd::arithmetic::power::lemma_pow_mod_noop(r * r, n as nat, q as int);
            assert(2 * n == self.order());
            if n >= 2 {
                lemma_pow_multiplies(r, 2, (n / 2) as nat);
                vstd::arithmetic::power::lemma_pow_mod_noop(r * r, (n / 2) as nat, q as int);
                assert(n % 2 == 0) by { if n % 2 == 1 { assert(!is_pow2(n as nat)); } }
                assert(2 * (n / 2) == n);
                assert(self.order() / 2 == n);
            }
        }
        let c = crate::butterfly::cooley_tukey(&tw, w, q);
        proof {
            let r = self.root as int;
            assert forall|k: int| 0 <= k < n implies #[trigger] c@[k] as int == self.forward_spec(ints(v@), k) by {
                let kk = k as nat;
                crate::butterfly::lemma_base_mod_pub(ints(tw@), r * r, kk, n as nat, q as int);
                crate::butterfly::lemma_entries_mod(ints(tw@), crate::butterfly::twisted(ints(v@), r), r * r, kk, n as nat, q as int);
                crate::butterfly::lemma_twist(ints(v@), r, kk, n as nat);
                assert(point_exp(k, true) == 2 * k + 1);
                assert forall|i: int| 0 <= i < n implies #[trigger] ints(tw@)[i] % (q as int)
                    == crate::butterfly::twisted(ints(v@), r)[i] % (q as int) by {
                    assert(ints(tw@)[i] == tw@[i] as int);
                }
            }
        }
        c
    }

    /// The inverse transform by butterflies, scaled by `n⁻¹` (and, for the
    /// negacyclic context, untwisted by the powers of `root⁻¹`).
    #[verifier::spinoff_prover]
    fn from_ntt_butterflies(&self, v: &Vec<u64>) -> (r: Vec<u64>)
        requires
            self.wf(),
            v@.len() == self.n,
            forall|i: int| 0 <= i < v@.len() ==> v@[i] < self.q,
        ensures
            r@.len() == self.n,
            forall|j: int| 0 <= j < self.n ==> #[trigger] r@[j] as int == self.inverse_spec(ints(v@), j),
            forall|k: int| 0 <= k < r@.len() ==> #[trigger] r@[k] < self.q,
    {
        let q = self.q;
        let n = self.n;
        let neg = self.ntt_algorithm == NTT_Algorithm::NegativeConvolution;
        proof { self.lemma_small_n(); }
        let ri = self.root_inv;
        // the base of the cyclic transform: root⁻¹, or root⁻² for the negacyclic context
        let w = if neg { mul_mod(ri, ri, q) } else { ri };
        proof {
            let r = ri as int;
            assert forall|i: int| 0 <= i < v@.len() implies #[trigger] v@[i] < q by {}
            if self.order() >= 2 {
                crate::ntt_lemmas::lemma_inverse_root_order(*self);
            } else {
                // order 1: root = 1, so root⁻¹ = 1
                assert(self.order() == 1 && n == 1 && !neg);
                vstd::arithmetic::power::lemma_pow1(self.root as int);
                lemma_small_mod(self.root as nat, q as nat);
                assert(self.root == 1);
                lemma_small_mod(ri as nat, q as nat);
                assert((self.root as int) * (ri as int) == ri as int) by (nonlinear_arith)
                    requires self.root == 1;
                assert((self.root * self.root_inv) % (q as int) == 1);
                assert(ri == 1);
                vstd::arithmetic::power::lemma_pow1(r);
                lemma_small_mod(1, q as nat);
            }
            if neg {
                assert(pow(r, 2) == r * r) by {
                    lemma_pow_adds(r, 1, 1);
                    vstd::arithmetic::power::lemma_pow1(r);
                }
                lemma_pow_multiplies(r, 2, n as nat);
                vstd::arithmetic::power::lemma_pow_mod_noop(r * r, n as nat, q as int);
                assert(2 * n == self.order());
                if n >= 2 {
                    lemma_pow_multiplies(r, 2, (n / 2) as nat);
                    vstd::arithmetic::power::lemma_pow_mod_noop(r * r, (n / 2) as nat, q as int);
                    assert(n % 2 == 0) by { if n % 2 == 1 { assert(!is_pow2(n as nat)); } }
                    assert(2 * (n / 2) == n);
                }
            }
        }
        let c = crate::butterfly::cooley_tukey(v, w, q);
        let mut out: Vec<u64> = Vec::new();
        let mut pw: u64 = 1 % q;
        let mut j: usize = 0;
        proof { vstd::arithmetic::power::lemma_pow0(ri as int); lemma_small_mod(1, q as nat); }
        while j < n
            invariant
                self.wf(),
                q == self.q,
                n == self.n,
                ri == self.root_inv,
                neg == self.negacyclic(),
                w as int == if neg { ((ri as int) * (ri as int)) % (q as int) } else { ri as int },
                v@.len() == n,
                c@.len() == n,
                forall|k: int| 0 <= k < n ==> #[trigger] c@[k] as int == lin_sum(ints(v@), w as int, 0, k as nat, n as nat) % (q as int),
                j <= n,
                out@.len() == j,
                pw < q,
                pw as int == pow(ri as int, j as nat) % (q as int),
                forall|i: int| 0 <= i < j ==> #[trigger] out@[i] < q,
                forall|i: int| 0 <= i < j ==> #[trigger] out@[i] as int == self.inverse_spec(ints(v@), i),
            decreases n - j,
        {
            let scaled = mul_mod(self.n_inv, c[j], q);
            let x = if neg { mul_mod(scaled, pw, q) } else { scaled };
            proof {
                let qq = q as int;
                let r = ri as int;
                let jj = j as nat;
                let ls = lin_sum(ints(v@), w as int, 0, jj, n as nat);
                lemma_mul_mod_noop_general(self.n_inv as int, ls, qq);
                if neg {
                    assert(point_exp(0, true) == 1 && point_exp(1, true) == 3);
                    assert((point_exp(0, true) * j) as nat == jj);
                    assert(((point_exp(1, true) - point_exp(0, true)) * j) as nat == 2 * jj);
                    crate::butterfly::lemma_untwist(ints(v@), r, jj, n as nat);
                    crate::butterfly::lemma_base_mod_pub(ints(v@), r * r, jj, n as nat, qq);
                    let full = lin_sum(ints(v@), r * r, 0, jj, n as nat);
                    // x ≡ n⁻¹ · full · r^j
                    lemma_mul_mod_noop_general(self.n_inv as int, full, qq);
                    lemma_mul_mod_noop_general((self.n_inv as int) * full, pow(r, jj), qq);
                    lemma_mul_mod_noop_general(((self.n_inv as int) * full) % qq, pow(r, jj), qq);
                    lemma_mul_mod_noop_general(scaled as int, pow(r, jj), qq);
                    assert((self.n_inv as int) * full * pow(r, jj) == (self.n_inv as int) * (pow(r, jj) * full)) by (nonlinear_arith);
                    assert(x as int == ((self.n_inv as int) * (pow(r, jj) * full)) % qq);
                } else {
                    assert(point_exp(0, false) == 0 && point_exp(1, false) == 1);
                    assert((point_exp(0, false) * j) as nat == 0);
                    assert(((point_exp(1, false) - point_exp(0, false)) * j) as nat == jj);
                }
                lemma_pow_adds(r, jj, 1);
                vstd::arithmetic::power::lemma_pow1(r);
                lemma_mul_mod_noop_general(pow(r, jj), r, qq);
                lemma_small_mod(ri as nat, q as nat);
            }
            out.push(x);
            pw = mul_mod(pw, ri, q);
            j = j + 1;
        }
        out
    }
}

/// Builds transform contexts.
pub struct NTTFactory {}

impl NTTFactory {
    /// The context for length `n` modulo `q` with root `zeta` (see `NTT::new`).
    pub fn init(n: usize, q: u64, zeta: u64, ntt_algorithm: NTT_Algorithm) -> (r: Result<NTT, AlgebraError>)
        ensures
            r is Ok <==> valid_ntt_params(n, q, zeta, ntt_algorithm),
            r matches Ok(c) ==> c.wf() && c.n == n && c.q == q && c.root == zeta && c.ntt_algorithm == ntt_algorithm,
            r matches Err(e) ==> e == AlgebraError::BadParameters,
    {
        NTT::new(n, q, zeta, ntt_algorithm)
    }
}

/// `2^e`.
fn pow2_u64(e: u32) -> (r: u64)
    requires
        e <= 62,
    ensures
        r as int == pow(2, e as nat),
        r <= 0x4000_0000_0000_0000,
{
    let mut r: u64 = 1;
    let mut i: u32 = 0;
    proof {
        reveal_with_fuel(pow, 63);
        assert(pow(2, 62) == 0x4000_0000_0000_0000);
    }
    while i < e
        invariant
            i <= e <= 62,
            r as int == pow(2, i as nat),
            pow(2, 62) == 0x4000_0000_0000_0000,
        decreases e - i,
    {
        proof {
            crate::rq::lemma_pow_succ(2, i as nat);
            vstd::arithmetic::power::lemma_pow_increases(2, (i + 1) as nat, 62);
        }
        r = 2 * r;
        i = i + 1;
    }
    proof {
        vstd::arithmetic::power::lemma_pow_increases(2, e as nat, 62);
    }
    r
}

/// Relies on rand::Rng::gen_range over the thread-local generator: a value in `[low, high)`.
#[verifier::external_body]
fn random_in_range(low: u64, high: u64) -> (r: u64)
    requires
        low < high,
    ensures
        low <= r < high,
{
    rand::thread_rng().gen_range(low..high)
}

impl NTT {
    /// `z` has order exactly `o` modulo `q`.
    pub open spec fn has_order(z: int, o: nat, q: int) -> bool {
        &&& pow(z, o) % q == 1
        &&& forall|k: int| 1 <= k < o ==> #[trigger] pow(z, k as nat) % q != 1
    }

    /// The candidate root a draw `alpha` gives: `z = alpha^((q-1)/order) mod q`,
    /// kept when its order is exactly `order` (checked power by power).
    pub fn root_from_draw(alpha: u64, q: u64, order: u64) -> (r: Option<u64>)
        requires
            valid_modulus(q as int),
            order >= 1,
        ensures
            r == ({
                let z = pow(alpha as int, ((q - 1) / order as int) as nat) % (q as int);
                if Self::has_order(z, order as nat, q as int) { Some(z as u64) } else { None::<u64> }
            }),
    {
        let e = (q - 1) / order;
        let z = pow_mod(alpha, e, q);
        assert(e as int == (q - 1) / order as int);
        let mut p: u64 = z;
        let mut k: u64 = 1;
        proof {
            vstd::arithmetic::power::lemma_pow1(z as int);
            lemma_small_mod(z as nat, q as nat);
        }
        while k < order
            invariant
                valid_modulus(q as int),
                z < q,
                z as int == pow(alpha as int, ((q - 1) / order as int) as nat) % (q as int),
                1 <= k <= order,
                p < q,
                p as int == pow(z as int, k as nat) % (q as int),
                forall|j: int| 1 <= j < k ==> #[trigger] pow(z as int, j as nat) % (q as int) != 1,
            decreases order - k,
        {
            if p == 1 {
                proof {
                    let kk: int = k as int;
                    assert(pow(z as int, kk as nat) % (q as int) == 1);
                    assert(1 <= kk < order);
                    assert(!Self::has_order(z as int, order as nat, q as int));
                }
                return None;
            }
            proof {
                lemma_pow_adds(z as int, k as nat, 1);
                vstd::arithmetic::power::lemma_pow1(z as int);
                lemma_mul_mod_noop_general(pow(z as int, k as nat), z as int, q as int);
                lemma_small_mod(z as nat, q as nat);
            }
            p = mul_mod(p, z, q);
            k = k + 1;
        }
        if p == 1 {
            Some(z)
        } else {
            None
        }
    }

    /// Searches, with at most `attempts` random draws `alpha` in `[1, q)`, for
    /// an element of order exactly `order` modulo the prime `q`, each draw
    /// tested by `root_from_draw`. `BadParameters` unless `q` is a prime in
    /// range and `order` divides `q - 1`. Being a random search it may come
    /// back empty: `Ok(None)` when every draw fails, always so for
    /// `attempts == 0`.
    pub fn get_nth_root_of_unity(q: u64, order: u64, attempts: u32) -> (r: Result<Option<u64>, AlgebraError>)
        ensures
            r is Err <==> !(valid_modulus(q as int) && is_prime(q as int) && order >= 1
                && (q - 1) % (order as int) == 0),
            r matches Err(e) ==> e == AlgebraError::BadParameters,
            attempts == 0 && r is Ok ==> r == Ok::<Option<u64>, AlgebraError>(None),
            r matches Ok(Some(z)) ==> z < q
                && pow(z as int, order as nat) % (q as int) == 1
                && forall|k: int| 1 <= k < order ==> #[trigger] pow(z as int, k as nat) % (q as int) != 1,
    {
        if q == 0 || q >= crate::zq::MAX_MODULUS || !prime_test(q) || order == 0 || (q - 1) % order != 0 {
            return Err(AlgebraError::BadParameters);
        }
        let mut k: u32 = 0;
        while k < attempts
            invariant
                valid_modulus(q as int),
                is_prime(q as int),
                order >= 1,
                (q - 1) % (order as int) == 0,
            decreases attempts - k,
        {
            let alpha = random_in_range(1, q);
            match Self::root_from_draw(alpha, q, order) {
                Some(z) => {
                    proof {
                        lemma_small_mod_lt(pow(alpha as int, ((q - 1) / order as int) as nat), q as int);
                    }
                    return Ok(Some(z));
                },
                None => {},
            }
            k = k + 1;
        }
        Ok(None)
    }

    /// A draw `p` is kept as a transform prime for length `n`: `2n | p - 1` and `p` prime.
    pub fn accepts_ntt_prime(p: u64, n: usize) -> (r: bool)
        requires
            p >= 1,
            n >= 1,
            n <= 0x2000_0000_0000_0000,
        ensures
            r == (((p - 1) as int) % (2 * n as int) == 0 && is_prime(p as int)),
    {
        let m: u64 = 2 * (n as u64);
        (p - 1) % m == 0 && prime_test(p)
    }

    /// Searches, with at most `attempts` random draws in `[2^(bit_length-1), 2^bit_length)`,
    /// for a prime accepted by `accepts_ntt_prime`, as the negacyclic
    /// transform of length `n` needs. `None` when no draw succeeds, and
    /// always when `n == 0`, `2n > 2^bit_length` or `attempts == 0`.
    pub fn generate_ntt_prime(n: usize, bit_length: u32, attempts: u32) -> (r: Option<u64>)
        requires
            2 <= bit_length <= 62,
        ensures
            (n == 0 || 2 * n > pow(2, bit_length as nat) || attempts == 0) ==> r is None,
            r matches Some(p) ==> is_prime(p as int) && valid_modulus(p as int)
                && ((p - 1) as int) % (2 * n as int) == 0
                && pow(2, (bit_length - 1) as nat) <= p < pow(2, bit_length as nat),
    {
        let low: u64 = pow2_u64(bit_length - 1);
        let high: u64 = pow2_u64(bit_length);
        proof {
            crate::rq::lemma_pow_succ(2, (bit_length - 1) as nat);
            vstd::arithmetic::power::lemma_pow_increases(2, 1, (bit_length - 1) as nat);
            reveal_with_fuel(pow, 2);
        }
        if n == 0 || n as u128 * 2 > high as u128 {
            return None;
        }
        let mut k: u32 = 0;
        while k < attempts
            invariant
                2 <= low < high,
                high <= 0x4000_0000_0000_0000,
                low == pow(2, (bit_length - 1) as nat),
                high == pow(2, bit_length as nat),
                n >= 1,
                2 * n <= high,
            decreases attempts - k,
        {
            let p = random_in_range(low, high);
            if Self::accepts_ntt_prime(p, n) {
                return Some(p);
            }
            k = k + 1;
        }
        None
    }
}

/// A power-of-two test on `u64`.
fn is_power_of_two_u64(n: u64) -> (r: bool)
    ensures
        r == is_pow2(n as nat),
    decreases n,
{
    if n == 1 {
        true
    } else if n == 0 || n % 2 == 1 {
        false
    } else {
        is_power_of_two_u64(n / 2)
    }
}

proof fn lemma_small_mod_lt(x: int, q: int)
    requires
        q > 0,
    ensures
        0 <= x % q < q,
{
    lemma_mod_bound(x, q);
}

} // verus!
