use vstd::prelude::*;
use vstd::arithmetic::div_mod::{lemma_small_mod, lemma_mod_bound, lemma_mod_breakdown,
    lemma_div_denominator, lemma_sub_mod_noop};
use vstd::arithmetic::power::{pow, lemma_pow0, lemma_pow_positive};
use vstd::arithmetic::mul::lemma_mul_is_commutative;
use vstd::arithmetic::div_mod::lemma_mul_mod_noop_general;
use crate::error::AlgebraError;
use crate::ntt::{NTT, NTT_Algorithm};
use crate::upoly::{coef, conv, degree_of, divides_difference, ints, UnivariatePolynomial};
use crate::zq::{add_mod, coprime, mul_mod, neg_mod, sub_mod};

verus! {

/// `r` is the remainder of `u` modulo `phi` over `Z/qZ`: they differ by a
/// multiple of `phi`, and `r` has no coefficient at or above `deg phi`.
pub open spec fn reduces_to(u: Seq<int>, phi: Seq<int>, r: Seq<int>, q: int) -> bool {
    &&& exists|qt: Seq<int>| divides_difference(u, qt, phi, r, q)
    &&& forall|k: int| #![trigger coef(r, k)] k >= degree_of(phi) ==> coef(r, k) == 0
}

/// `x^n + 1` when `plus`, else `x^n - 1`, with coefficients modulo `q`.
pub open spec fn is_binomial(phi: Seq<int>, n: int, q: int, plus: bool) -> bool {
    &&& phi.len() == n + 1
    &&& phi[0] == if plus { 1int % q } else { (-1int) % q }
    &&& phi[n] == 1
    &&& forall|i: int| 0 < i < n ==> #[trigger] phi[i] == 0
}

/// Largest degree of `Φ` accepted, so that products of elements stay indexable.
pub const MAX_DEGREE: usize = 0x7fff_ffff;

/// An element of a polynomial quotient ring: residues modulo `q`, either the
/// coefficients (`ntt_form == false`) or the transform's values.
#[derive(Debug, Clone, PartialEq, Eq)]
pub struct PolynomialRingInstance {
    pub coefficients: Vec<u64>,
    pub ntt_form: bool,
}

impl PolynomialRingInstance {
    pub open spec fn view(&self) -> Seq<int> {
        ints(self.coefficients@)
    }
}

/// The ring `Z_q[x]/Φ(x)`, optionally carrying a transform context.
#[derive(Debug, Clone, PartialEq, Eq)]
pub struct PolynomialRing {
    pub irreducible_polynomial: UnivariatePolynomial,
    pub fixed_length_coefficients: bool,
    pub ntt: Option<NTT>,
    /// `deg Φ`.
    pub n: usize,
    pub modulus: u64,
}

impl PolynomialRing {
    pub open spec fn phi(&self) -> Seq<int> {
        self.irreducible_polynomial@
    }

    pub open spec fn wf(&self) -> bool {
        &&& self.irreducible_polynomial.wf()
        &&& self.modulus == self.irreducible_polynomial.modulus
        &&& 1 <= self.n <= MAX_DEGREE
        &&& self.n as int == degree_of(self.phi())
        &&& coprime(self.phi()[self.n as int], self.modulus as int)
        &&& self.ntt matches Some(c) ==> {
            &&& c.wf()
            &&& c.q == self.modulus
            &&& c.n == self.n
            &&& is_binomial(self.phi(), self.n as int, self.modulus as int, c.negacyclic())
        }
    }

    /// `x` is an element of this ring.
    pub open spec fn contains(&self, x: PolynomialRingInstance) -> bool {
        &&& 1 <= x.coefficients@.len() <= self.n
        &&& forall|i: int| 0 <= i < x.coefficients@.len() ==> #[trigger] x.coefficients@[i] < self.modulus
        &&& self.fixed_length_coefficients ==> x.coefficients@.len() == self.n
        &&& x.ntt_form ==> (self.ntt is Some && x.coefficients@.len() == self.n)
    }

    /// The length rule that results follow in the coefficient basis.
    pub open spec fn length_ok(&self, len: int, fixed: bool) -> bool {
        if fixed {
            len == self.n
        } else {
            1 <= len <= self.n
        }
    }
}

/// The first `n` entries of `v` (zero-padded), all of length `n` when
/// `fixed`, otherwise with trailing zeros dropped but one entry kept.
fn fit(v: &Vec<u64>, n: usize, fixed: bool, q: u64) -> (r: Vec<u64>)
    requires
        n >= 1,
        q > 0,
        forall|i: int| 0 <= i < v@.len() ==> #[trigger] v@[i] < q,
    ensures
        fixed ==> r@.len() == n,
        1 <= r@.len() <= n,
        forall|k: int| 0 <= k < n ==> #[trigger] coef(ints(r@), k) == coef(ints(v@), k),
        forall|k: int| 0 <= k < r@.len() ==> #[trigger] r@[k] < q,
{
    let mut r: Vec<u64> = Vec::new();
    let mut i: usize = 0;
    while i < n
        invariant
            i <= n,
            q > 0,
            r@.len() == i,
            forall|k: int| 0 <= k < i ==> #[trigger] coef(ints(r@), k) == coef(ints(v@), k),
            forall|k: int| 0 <= k < v@.len() ==> #[trigger] v@[k] < q,
            forall|k: int| 0 <= k < i ==> #[trigger] r@[k] < q,
        decreases n - i,
    {
        let x: u64 = if i < v.len() { v[i] } else { 0 };
        proof {
            if i < v@.len() {
                assert(ints(v@)[i as int] == v@[i as int] as int);
            }
        }
        let ghost old_r = r@;
        r.push(x);
        proof {
            assert forall|k: int| 0 <= k < i + 1 implies #[trigger] coef(ints(r@), k) == coef(ints(v@), k) by {
                assert(ints(r@)[k] == r@[k] as int);
                if k < i {
                    assert(r@[k] == old_r[k]);
                    assert(ints(old_r)[k] == old_r[k] as int);
                    assert(coef(ints(old_r), k) == coef(ints(v@), k));
                } else if k < v@.len() {
                    assert(ints(v@)[k] == v@[k] as int);
                }
            }
        }
        i = i + 1;
    }
    if !fixed {
        let ghost full = r@;
        while r.len() > 1 && r[r.len() - 1] == 0
            invariant
                1 <= r@.len() <= n,
                full.len() == n,
                r@ == full.subrange(0, r@.len() as int),
                forall|k: int| 0 <= k < full.len() ==> #[trigger] full[k] < q,
                forall|k: int| r@.len() <= k < n ==> full[k] == 0,
            decreases r.len(),
        {
            r.pop();
        }
        proof {
            assert forall|k: int| 0 <= k < n implies #[trigger] coef(ints(r@), k) == coef(ints(full), k) by {
                if k < r@.len() {
                    assert(ints(r@)[k] == r@[k] as int);
                    assert(ints(full)[k] == full[k] as int);
                } else {
                    assert(ints(full)[k] == full[k] as int);
                }
            }
        }
    }
    r
}

/// `x` zero-padded (or cut) to `n` coefficients.
pub open spec fn padded(x: Seq<int>, n: nat) -> Seq<int> {
    Seq::new(n, |i: int| coef(x, i))
}

/// The coefficients of the product `a · b` over the integers.
pub open spec fn product(a: Seq<int>, b: Seq<int>) -> Seq<int> {
    Seq::new((a.len() + b.len() - 1) as nat, |k: int| conv(a, b, k))
}

proof fn lemma_congruent_sub(a: int, b: int, x: int, q: int)
    requires
        q > 0,
        a % q == b % q,
    ensures
        (a - x) % q == (b - x) % q,
{
    lemma_sub_mod_noop(a, x, q);
    lemma_sub_mod_noop(b, x, q);
}

/// `divides_difference` reads `u` and `r` through their coefficients only.
proof fn lemma_divides_difference_transfer(u: Seq<int>, u2: Seq<int>, qt: Seq<int>, phi: Seq<int>,
    r: Seq<int>, r2: Seq<int>, q: int)
    requires
        q > 0,
        divides_difference(u, qt, phi, r, q),
        forall|k: int| #![trigger coef(u2, k)] coef(u2, k) % q == coef(u, k) % q,
        forall|k: int| #![trigger coef(r2, k)] coef(r2, k) == coef(r, k),
    ensures
        divides_difference(u2, qt, phi, r2, q),
{
    assert forall|k: int| #![trigger coef(u2, k)] (coef(u2, k) - conv(qt, phi, k) - coef(r2, k)) % q == 0 by {
        assert(coef(u, k) == coef(u, k));
        lemma_congruent_sub(coef(u2, k), coef(u, k), conv(qt, phi, k) + coef(r, k), q);
        assert(coef(u2, k) - conv(qt, phi, k) - coef(r2, k) == coef(u2, k) - (conv(qt, phi, k) + coef(r, k)));
        assert(coef(u, k) - conv(qt, phi, k) - coef(r, k) == coef(u, k) - (conv(qt, phi, k) + coef(r, k)));
    }
}

impl PolynomialRing {
    /// The ring `Z_q[x]/Φ(x)`; `BadParameters` when `Φ` is constant or its
    /// leading coefficient is not a unit modulo `q`.
    pub fn new(irreducible_polynomial: UnivariatePolynomial, fixed_length_coefficients: bool)
        -> (r: Result<PolynomialRing, AlgebraError>)
        requires
            irreducible_polynomial.wf(),
        ensures
            r is Ok <==> (1 <= degree_of(irreducible_polynomial@) <= MAX_DEGREE
                && coprime(irreducible_polynomial@[degree_of(irreducible_polynomial@)],
                    irreducible_polynomial.modulus as int)),
            r matches Err(e) ==> e == AlgebraError::BadParameters,
            r matches Ok(ring) ==> ring.wf() && ring.irreducible_polynomial == irreducible_polynomial
                && ring.fixed_length_coefficients == fixed_length_coefficients && ring.ntt is None,
    {
        let n = match irreducible_polynomial.degree() {
            None => { return Err(AlgebraError::BadParameters); },
            Some(d) => d,
        };
        if n == 0 || n > MAX_DEGREE {
            return Err(AlgebraError::BadParameters);
        }
        let q = irreducible_polynomial.modulus;
        proof {
            assert(n < irreducible_polynomial.coefficients@.len()) by {
                crate::upoly::lemma_degree_of_bound(irreducible_polynomial@);
            }
            assert(irreducible_polynomial@[n as int] == irreducible_polynomial.coefficients@[n as int] as int);
            lemma_small_mod(irreducible_polynomial.coefficients@[n as int] as nat, q as nat);
        }
        if crate::zq::inv_mod(irreducible_polynomial.coefficients[n], q).is_none() {
            return Err(AlgebraError::BadParameters);
        }
        Ok(PolynomialRing { irreducible_polynomial, fixed_length_coefficients, ntt: None, n, modulus: q })
    }

    /// This ring, carrying `ntt_ctxt`. `BadParameters` unless the context
    /// works modulo `q` on length `deg Φ` and `Φ` is `x^N + 1` for the
    /// negacyclic transform or `x^N - 1` for the cyclic ones.
    pub fn get_ntt_enabled_ring(self, ntt_ctxt: NTT) -> (r: Result<PolynomialRing, AlgebraError>)
        requires
            self.wf(),
            ntt_ctxt.wf(),
        ensures
            r is Ok <==> (ntt_ctxt.q == self.modulus && ntt_ctxt.n == self.n
                && is_binomial(self.phi(), self.n as int, self.modulus as int, ntt_ctxt.negacyclic())),
            r matches Err(e) ==> e == AlgebraError::BadParameters,
            r matches Ok(ring) ==> ring.wf() && ring.ntt == Some(ntt_ctxt)
                && ring.irreducible_polynomial == self.irreducible_polynomial
                && ring.fixed_length_coefficients == self.fixed_length_coefficients,
    {
        if ntt_ctxt.q != self.modulus || ntt_ctxt.n != self.n {
            return Err(AlgebraError::BadParameters);
        }
        let n = self.n;
        let q = self.modulus;
        let c = &self.irreducible_polynomial.coefficients;
        if c.len() != n + 1 || c[n] != 1 {
            return Err(AlgebraError::BadParameters);
        }
        let neg = ntt_ctxt.ntt_algorithm == NTT_Algorithm::NegativeConvolution;
        let c0: u64 = if neg { 1 % q } else { q - 1 };
        proof {
            assert(self.phi()[0] == c@[0] as int);
            assert(self.phi()[n as int] == c@[n as int] as int);
            if !neg {
                lemma_small_mod((q - 1) as nat, q as nat);
                crate::zq::lemma_mod_neg_one(q as int);
            }
        }
        if c[0] != c0 {
            return Err(AlgebraError::BadParameters);
        }
        let mut i: usize = 1;
        while i < n
            invariant
                1 <= i <= n,
                c@.len() == n + 1,
                c == &self.irreducible_polynomial.coefficients,
                forall|j: int| 0 < j < i ==> #[trigger] c@[j] == 0,
            decreases n - i,
        {
            if c[i] != 0 {
                proof { assert(self.phi()[i as int] == c@[i as int] as int); }
                return Err(AlgebraError::BadParameters);
            }
            i = i + 1;
        }
        proof {
            assert forall|j: int| 0 < j < n implies #[trigger] self.phi()[j] == 0 by {
                assert(self.phi()[j] == c@[j] as int);
            }
        }
        Ok(PolynomialRing {
            irreducible_polynomial: self.irreducible_polynomial,
            fixed_length_coefficients: self.fixed_length_coefficients,
            ntt: Some(ntt_ctxt),
            n: self.n,
            modulus: self.modulus,
        })
    }

    /// The zero element in the coefficient basis.
    pub fn zero(&self) -> (r: PolynomialRingInstance)
        requires
            self.wf(),
        ensures
            self.contains(r),
            !r.ntt_form,
            forall|k: int| #![trigger coef(r@, k)] coef(r@, k) == 0,
    {
        let z: Vec<u64> = vec![0u64];
        let v = fit(&z, self.n, self.fixed_length_coefficients, self.modulus);
        let r = PolynomialRingInstance { coefficients: v, ntt_form: false };
        proof {
            assert forall|k: int| #![trigger coef(r@, k)] coef(r@, k) == 0 by {
                if 0 <= k < self.n {
                    assert(coef(ints(z@), k) == 0) by {
                        if k == 0 { assert(ints(z@)[0] == 0); }
                    }
                }
            }
        }
        r
    }

    /// The image of `u` in the ring: its remainder modulo `Φ`, marked with the
    /// given basis. `DomainMismatch` when `u` has another modulus; `BadBasis`
    /// when the transform basis is asked of a ring without a context.
    pub fn apply(&self, u: &UnivariatePolynomial, ntt_form: bool) -> (r: Result<PolynomialRingInstance, AlgebraError>)
        requires
            self.wf(),
            u.wf(),
        ensures
            u.modulus != self.modulus ==> r == Err::<PolynomialRingInstance, AlgebraError>(AlgebraError::DomainMismatch),
            u.modulus == self.modulus && ntt_form && self.ntt is None
                ==> r == Err::<PolynomialRingInstance, AlgebraError>(AlgebraError::BadBasis),
            r is Ok <==> (u.modulus == self.modulus && (ntt_form ==> self.ntt is Some)),
            r matches Ok(x) ==> self.contains(x) && x.ntt_form == ntt_form
                && reduces_to(u@, self.phi(), x@, self.modulus as int),
    {
        if u.modulus != self.modulus {
            return Err(AlgebraError::DomainMismatch);
        }
        if ntt_form && self.ntt.is_none() {
            return Err(AlgebraError::BadBasis);
        }
        match u.divmod(&self.irreducible_polynomial) {
            Err(e) => Err(e),
            Ok((qt, rm)) => {
                let v = fit(&rm.coefficients, self.n, self.fixed_length_coefficients || ntt_form, self.modulus);
                let x = PolynomialRingInstance { coefficients: v, ntt_form };
                proof {
                    assert forall|k: int| #![trigger coef(x@, k)] coef(x@, k) == coef(rm@, k) by {
                        if k >= self.n {
                            assert(coef(x@, k) == 0);
                        }
                    }
                    assert forall|k: int| #![trigger coef(u@, k)] coef(u@, k) % (self.modulus as int)
                        == coef(u@, k) % (self.modulus as int) by {}
                    lemma_divides_difference_transfer(u@, u@, qt@, self.phi(), rm@, x@, self.modulus as int);
                    assert(exists|w: Seq<int>| divides_difference(u@, w, self.phi(), x@, self.modulus as int));
                    assert forall|k: int| #![trigger coef(x@, k)] k >= degree_of(self.phi()) implies coef(x@, k) == 0 by {
                        assert(coef(x@, k) == coef(rm@, k));
                    }
                    assert forall|i: int| 0 <= i < x.coefficients@.len() implies #[trigger] x.coefficients@[i] < self.modulus by {}
                }
                Ok(x)
            },
        }
    }

    /// Coefficient-wise sum; the result is in the transform basis only when both operands are.
    pub fn add(&self, x: &PolynomialRingInstance, y: &PolynomialRingInstance) -> (r: PolynomialRingInstance)
        requires
            self.wf(),
            self.contains(*x),
            self.contains(*y),
        ensures
            self.contains(r),
            r.ntt_form == (x.ntt_form && y.ntt_form),
            forall|k: int| #![trigger coef(r@, k)] 0 <= k < self.n
                ==> coef(r@, k) == (coef(x@, k) + coef(y@, k)) % (self.modulus as int),
            forall|k: int| #![trigger coef(r@, k)] k >= self.n ==> coef(r@, k) == 0,
    {
        self.coefwise(x, y, 0)
    }

    /// Coefficient-wise difference; the result is in the transform basis only when both operands are.
    pub fn sub(&self, x: &PolynomialRingInstance, y: &PolynomialRingInstance) -> (r: PolynomialRingInstance)
        requires
            self.wf(),
            self.contains(*x),
            self.contains(*y),
        ensures
            self.contains(r),
            r.ntt_form == (x.ntt_form && y.ntt_form),
            forall|k: int| #![trigger coef(r@, k)] 0 <= k < self.n
                ==> coef(r@, k) == (coef(x@, k) - coef(y@, k)) % (self.modulus as int),
            forall|k: int| #![trigger coef(r@, k)] k >= self.n ==> coef(r@, k) == 0,
    {
        self.coefwise(x, y, 1)
    }

    /// Coefficient-wise negation, in the same basis.
    pub fn neg(&self, x: &PolynomialRingInstance) -> (r: PolynomialRingInstance)
        requires
            self.wf(),
            self.contains(*x),
        ensures
            self.contains(r),
            r.ntt_form == x.ntt_form,
            forall|k: int| #![trigger coef(r@, k)] 0 <= k < self.n
                ==> coef(r@, k) == (-coef(x@, k)) % (self.modulus as int),
            forall|k: int| #![trigger coef(r@, k)] k >= self.n ==> coef(r@, k) == 0,
    {
        let r = self.coefwise(x, x, 2);
        r
    }

    /// `op` 0: sum, 1: difference, 2: negation of `x`, 3: product.
    fn coefwise(&self, x: &PolynomialRingInstance, y: &PolynomialRingInstance, op: u8) -> (r: PolynomialRingInstance)
        requires
            self.wf(),
            self.contains(*x),
            self.contains(*y),
            op <= 3,
        ensures
            self.contains(r),
            r.ntt_form == if op == 2 { x.ntt_form } else { x.ntt_form && y.ntt_form },
            forall|k: int| #![trigger coef(r@, k)] 0 <= k < self.n ==> coef(r@, k) == (
                if op == 0 { coef(x@, k) + coef(y@, k) }
                else if op == 1 { coef(x@, k) - coef(y@, k) }
                else if op == 2 { -coef(x@, k) }
                else { coef(x@, k) * coef(y@, k) }) % (self.modulus as int),
            forall|k: int| #![trigger coef(r@, k)] k >= self.n ==> coef(r@, k) == 0,
    {
        let q = self.modulus;
        let n = self.n;
        let mut v: Vec<u64> = Vec::new();
        let mut i: usize = 0;
        while i < n
            invariant
                self.wf(),
                self.contains(*x),
                self.contains(*y),
                q == self.modulus,
                n == self.n,
                i <= n,
                v@.len() == i,
                forall|k: int| 0 <= k < i ==> #[trigger] v@[k] < q,
                forall|k: int| 0 <= k < i ==> #[trigger] v@[k] as int == (
                    if op == 0 { coef(x@, k) + coef(y@, k) }
                    else if op == 1 { coef(x@, k) - coef(y@, k) }
                    else if op == 2 { -coef(x@, k) }
                    else { coef(x@, k) * coef(y@, k) }) % (q as int),
            decreases n - i,
        {
            let a = coef_at(&x.coefficients, i, q);
            let b = coef_at(&y.coefficients, i, q);
            let c = if op == 0 {
                add_mod(a, b, q)
            } else if op == 1 {
                sub_mod(a, b, q)
            } else if op == 2 {
                neg_mod(a, q)
            } else {
                mul_mod(a, b, q)
            };
            v.push(c);
            i = i + 1;
        }
        let form = if op == 2 { x.ntt_form } else { x.ntt_form && y.ntt_form };
        let ghost vv = v@;
        let w = fit(&v, n, self.fixed_length_coefficients || form, q);
        let r = PolynomialRingInstance { coefficients: w, ntt_form: form };
        proof {
            assert forall|k: int| #![trigger coef(r@, k)] 0 <= k < self.n implies coef(r@, k) == (
                if op == 0 { coef(x@, k) + coef(y@, k) }
                else if op == 1 { coef(x@, k) - coef(y@, k) }
                else if op == 2 { -coef(x@, k) }
                else { coef(x@, k) * coef(y@, k) }) % (q as int) by {
                assert(coef(r@, k) == coef(ints(vv), k));
                assert(ints(vv)[k] == vv[k] as int);
            }
            assert(forall|k: int| 0 <= k < r.coefficients@.len() ==> #[trigger] r.coefficients@[k] < self.modulus);
        }
        r
    }

    /// The product; it always succeeds. When both operands are in the
    /// transform basis it is the pointwise product. Otherwise the stored
    /// coefficients are multiplied by schoolbook and reduced modulo `Φ`, and
    /// the result is in the coefficient basis.
    #[verifier::spinoff_prover]
    pub fn mul(&self, x: &PolynomialRingInstance, y: &PolynomialRingInstance) -> (r: Result<PolynomialRingInstance, AlgebraError>)
        requires
            self.wf(),
            self.contains(*x),
            self.contains(*y),
        ensures
            r is Ok,
            r matches Ok(z) ==> self.contains(z) && z.ntt_form == (x.ntt_form && y.ntt_form),
            r matches Ok(z) ==> (x.ntt_form && y.ntt_form) ==> forall|k: int| #![trigger coef(z@, k)] 0 <= k < self.n
                ==> coef(z@, k) == (coef(x@, k) * coef(y@, k)) % (self.modulus as int),
            r matches Ok(z) ==> !(x.ntt_form && y.ntt_form)
                ==> reduces_to(product(x@, y@), self.phi(), z@, self.modulus as int),
    {
        if x.ntt_form && y.ntt_form {
            return Ok(self.coefwise(x, y, 3));
        }
        let q = self.modulus;
        let a = UnivariatePolynomial { coefficients: x.coefficients.clone(), modulus: q, clean: false };
        let b = UnivariatePolynomial { coefficients: y.coefficients.clone(), modulus: q, clean: false };
        assert(a.coefficients@ == x.coefficients@);
        assert(b.coefficients@ == y.coefficients@);
        assert(a@ == x@);
        assert(b@ == y@);
        let p = match a.mul(&b) {
            Ok(p) => p,
            Err(e) => { return Err(e); },
        };
        match p.divmod(&self.irreducible_polynomial) {
            Err(e) => Err(e),
            Ok((qt, rm)) => {
                let v = fit(&rm.coefficients, self.n, self.fixed_length_coefficients, q);
                let z = PolynomialRingInstance { coefficients: v, ntt_form: false };
                proof {
                    let pr = product(x@, y@);
                    assert forall|k: int| #![trigger coef(z@, k)] coef(z@, k) == coef(rm@, k) by {
                        if k >= self.n {
                            assert(coef(z@, k) == 0);
                        }
                    }
                    assert forall|k: int| #![trigger coef(pr, k)] coef(pr, k) % (q as int) == coef(p@, k) % (q as int) by {
                        crate::zq::lemma_mod_mod_eq(conv(x@, y@, k), q as int);
                        if !(0 <= k < pr.len()) {
                            crate::upoly::lemma_conv_outside(x@, y@, k, x@.len());
                        }
                    }
                    lemma_divides_difference_transfer(p@, pr, qt@, self.phi(), rm@, z@, q as int);
                    assert(exists|w: Seq<int>| divides_difference(pr, w, self.phi(), z@, q as int));
                    assert forall|k: int| #![trigger coef(z@, k)] k >= degree_of(self.phi()) implies coef(z@, k) == 0 by {
                        assert(coef(z@, k) == coef(rm@, k));
                    }
                }
                Ok(z)
            },
        }
    }

    /// The transform of a coefficient-basis element, zero-padded to `n`.
    /// `BadBasis` when it is already transformed; `BadParameters` when the
    /// ring carries no context.
    pub fn apply_ntt_ctxt(&self, x: &PolynomialRingInstance) -> (r: Result<PolynomialRingInstance, AlgebraError>)
        requires
            self.wf(),
            self.contains(*x),
        ensures
            x.ntt_form ==> r == Err::<PolynomialRingInstance, AlgebraError>(AlgebraError::BadBasis),
            !x.ntt_form && self.ntt is None ==> r == Err::<PolynomialRingInstance, AlgebraError>(AlgebraError::BadParameters),
            r is Ok <==> (!x.ntt_form && self.ntt is Some),
            r matches Ok(z) ==> self.contains(z) && z.ntt_form && z.coefficients@.len() == self.n,
            r matches Ok(z) ==> forall|k: int| #![trigger z@[k]] 0 <= k < self.n
                ==> z@[k] == self.ntt.unwrap().forward_spec(padded(x@, self.n as nat), k),
    {
        if x.ntt_form {
            return Err(AlgebraError::BadBasis);
        }
        let ctx = match self.ntt {
            None => { return Err(AlgebraError::BadParameters); },
            Some(c) => c,
        };
        let v = fit(&x.coefficients, self.n, true, self.modulus);
        proof {
            assert(ints(v@) =~= padded(x@, self.n as nat)) by {
                assert forall|k: int| 0 <= k < self.n implies ints(v@)[k] == padded(x@, self.n as nat)[k] by {
                    assert(coef(ints(v@), k) == coef(x@, k));
                }
            }
        }
        match ctx.to_ntt(&v) {
            Err(e) => Err(e),
            Ok(w) => {
                let z = PolynomialRingInstance { coefficients: w, ntt_form: true };
                proof {
                    assert forall|k: int| #![trigger z@[k]] 0 <= k < self.n implies
                        z@[k] == ctx.forward_spec(padded(x@, self.n as nat), k) by {
                        assert(z@[k] == w@[k] as int);
                    }
                }
                Ok(z)
            },
        }
    }

    /// The coefficients of a transformed element, of length `n` when
    /// `fixed_length_coefficients` (or the ring's rule) asks for it.
    /// `BadBasis` when the element is in the coefficient basis.
    pub fn from_ntt_ctxt(&self, x: &PolynomialRingInstance, fixed_length_coefficients: bool) -> (r: Result<PolynomialRingInstance, AlgebraError>)
        requires
            self.wf(),
            self.contains(*x),
        ensures
            r is Err <==> !x.ntt_form,
            r matches Err(e) ==> e == AlgebraError::BadBasis,
            r matches Ok(z) ==> self.contains(z) && !z.ntt_form
                && ((fixed_length_coefficients || self.fixed_length_coefficients) ==> z.coefficients@.len() == self.n),
            r matches Ok(z) ==> forall|j: int| #![trigger coef(z@, j)] 0 <= j < self.n
                ==> coef(z@, j) == self.ntt.unwrap().inverse_spec(x@, j),
            r matches Ok(z) ==> forall|j: int| #![trigger coef(z@, j)] j >= self.n ==> coef(z@, j) == 0,
    {
        if !x.ntt_form {
            return Err(AlgebraError::BadBasis);
        }
        let ctx = match self.ntt {
            None => { return Err(AlgebraError::BadBasis); },
            Some(c) => c,
        };
        match ctx.from_ntt(&x.coefficients) {
            Err(e) => Err(e),
            Ok(w) => {
                let v = fit(&w, self.n, fixed_length_coefficients || self.fixed_length_coefficients, self.modulus);
                let z = PolynomialRingInstance { coefficients: v, ntt_form: false };
                proof {
                    assert forall|j: int| #![trigger coef(z@, j)] 0 <= j < self.n implies
                        coef(z@, j) == ctx.inverse_spec(x@, j) by {
                        assert(coef(z@, j) == coef(ints(w@), j));
                        assert(ints(w@)[j] == w@[j] as int);
                    }
                }
                Ok(z)
            },
        }
    }

    /// Base-`base` digits of every coefficient: piece `i` holds
    /// `(c / base^i) mod base` for each coefficient `c`, in `⌈log_base q⌉ + 1`
    /// pieces, each in the basis of `x`. `BadParameters` when `base < 2`.
    #[verifier::spinoff_prover]
    pub fn base_decompose(&self, x: &PolynomialRingInstance, base: u64) -> (r: Result<Vec<PolynomialRingInstance>, AlgebraError>)
        requires
            self.wf(),
            self.contains(*x),
        ensures
            r is Err <==> base < 2,
            r matches Err(e) ==> e == AlgebraError::BadParameters,
            r matches Ok(pieces) ==> {
                &&& pieces@.len() >= 1
                &&& pieces@.len() == decomposition_count(self.modulus as nat, base as nat)
                &&& (self.modulus as int) < pow(base as int, pieces@.len())
                &&& forall|i: int| 0 <= i < pieces@.len() ==> {
                    &&& self.contains(#[trigger] pieces@[i])
                    &&& pieces@[i].ntt_form == x.ntt_form
                    &&& pieces@[i].coefficients@.len() == x.coefficients@.len()
                    &&& forall|k: int| 0 <= k < x.coefficients@.len() ==> #[trigger] pieces@[i]@[k]
                        == (x@[k] / pow(base as int, i as nat)) % (base as int)
                }
            },
    {
        if base < 2 {
            return Err(AlgebraError::BadParameters);
        }
        let q = self.modulus;
        // Number of base-`base` digits of q.
        let mut l: usize = 0;
        let qm: u64 = q - 1;
        let mut t: u64 = qm;
        proof {
            lemma_pow0(base as int);
            lemma_pow0(2);
            assert((qm as int) / 1 == qm);
        }
        while t > 0
            invariant
                base >= 2,
                l <= 64,
                t as int == (qm as int) / pow(base as int, l as nat),
                t as int <= (qm as int) / pow(2, l as nat) ,
                pow(base as int, l as nat) > 0,
                l + digit_count(t as nat, base as nat) == digit_count(qm as nat, base as nat),
            decreases t,
        {
            proof {
                lemma_pow_positive(base as int, l as nat);
                lemma_pow_positive(2, l as nat);
                lemma_div_denominator(qm as int, pow(base as int, l as nat), base as int);
                lemma_div_denominator(qm as int, pow(2, l as nat), 2);
                lemma_pow_succ(base as int, l as nat);
                lemma_pow_succ(2, l as nat);
                lemma_div_mono(t as int, (qm as int) / pow(2, l as nat), base as int, 2);
                lemma_mul_is_commutative(base as int, pow(base as int, l as nat));
                lemma_mul_is_commutative(2, pow(2, l as nat));
                vstd::arithmetic::div_mod::lemma_div_decreases(t as int, base as int);
                if l == 64 {
                    lemma_pow2_64();
                    assert((qm as int) / pow(2, 64) == 0) by {
                        lemma_small_div(qm as int, pow(2, 64));
                    }
                }
            }
            t = t / base;
            l = l + 1;
        }
        proof {
            lemma_pow_positive(base as int, l as nat);
            lemma_div_zero_lt(qm as int, pow(base as int, l as nat));
            if l == 0 {
                lemma_pow0(base as int);
                assert((qm as int) / 1 == qm);
            }
            lemma_pow_succ(base as int, l as nat);
            assert(pow(base as int, l as nat) * (base as int) >= pow(base as int, l as nat) * 2) by (nonlinear_arith)
                requires base >= 2, pow(base as int, l as nat) > 0;
        }
        let l: usize = l + 1;
        let len = x.coefficients.len();
        let mut cur: Vec<u64> = x.coefficients.clone();
        let mut pieces: Vec<PolynomialRingInstance> = Vec::new();
        let mut i: usize = 0;
        assert(cur@ == x.coefficients@);
        proof { lemma_pow0(base as int); }
        while i < l
            invariant
                self.wf(),
                self.contains(*x),
                base >= 2,
                q == self.modulus,
                (q as int) < pow(base as int, l as nat),
                l >= 1,
                i <= l,
                len == x.coefficients@.len(),
                cur@.len() == len,
                pieces@.len() == i,
                forall|k: int| 0 <= k < len ==> #[trigger] cur@[k] as int == (x@[k] / pow(base as int, i as nat)),
                forall|p: int| 0 <= p < i ==> {
                    &&& self.contains(#[trigger] pieces@[p])
                    &&& pieces@[p].ntt_form == x.ntt_form
                    &&& pieces@[p].coefficients@.len() == len
                    &&& forall|k: int| 0 <= k < len ==> #[trigger] pieces@[p]@[k]
                        == (x@[k] / pow(base as int, p as nat)) % (base as int)
                },
            decreases l - i,
        {
            let mut digits: Vec<u64> = Vec::new();
            let mut next: Vec<u64> = Vec::new();
            let mut k: usize = 0;
            proof { lemma_pow_positive(base as int, i as nat); }
            while k < len
                invariant
                    base >= 2,
                    self.contains(*x),
                    q == self.modulus,
                    len == x.coefficients@.len(),
                    cur@.len() == len,
                    pow(base as int, i as nat) > 0,
                    forall|j: int| 0 <= j < len ==> #[trigger] cur@[j] as int == (x@[j] / pow(base as int, i as nat)),
                    k <= len,
                    digits@.len() == k,
                    next@.len() == k,
                    forall|j: int| 0 <= j < k ==> #[trigger] digits@[j] as int
                        == (x@[j] / pow(base as int, i as nat)) % (base as int),
                    forall|j: int| 0 <= j < k ==> #[trigger] digits@[j] < q,
                    forall|j: int| 0 <= j < k ==> #[trigger] next@[j] as int
                        == (x@[j] / pow(base as int, (i + 1) as nat)),
                decreases len - k,
            {
                let c = cur[k];
                proof {
                    assert(x@[k as int] == x.coefficients@[k as int] as int);
                    assert(x.coefficients@[k as int] < q);
                    lemma_div_le(x@[k as int], pow(base as int, i as nat));
                    lemma_mod_le(c as int, base as int);
                    lemma_div_denominator(x@[k as int], pow(base as int, i as nat), base as int);
                    lemma_pow_succ(base as int, i as nat);
                    lemma_mul_is_commutative(base as int, pow(base as int, i as nat));
                }
                digits.push(c % base);
                next.push(c / base);
                k = k + 1;
            }
            let piece = PolynomialRingInstance { coefficients: digits, ntt_form: x.ntt_form };
            proof {
                assert forall|j: int| 0 <= j < len implies #[trigger] piece@[j]
                    == (x@[j] / pow(base as int, i as nat)) % (base as int) by {
                    assert(piece@[j] == piece.coefficients@[j] as int);
                }
                assert(forall|j: int| 0 <= j < piece.coefficients@.len() ==> #[trigger] piece.coefficients@[j] < self.modulus);
            }
            pieces.push(piece);
            cur = next;
            i = i + 1;
        }
        Ok(pieces)
    }

    /// The inverse of an element in the transform basis, value by value: the
    /// transform is a ring isomorphism, so `x` is a unit exactly when each of
    /// its values is.
    fn inverse_values(&self, x: &PolynomialRingInstance) -> (r: Result<PolynomialRingInstance, AlgebraError>)
        requires
            self.wf(),
            self.contains(*x),
        ensures
            x.ntt_form && r is Err ==> r == Err::<PolynomialRingInstance, AlgebraError>(AlgebraError::NotInvertible),
            !x.ntt_form ==> r == Err::<PolynomialRingInstance, AlgebraError>(AlgebraError::BadBasis),
            r is Ok <==> (x.ntt_form && forall|k: int| 0 <= k < self.n ==> coprime(#[trigger] x@[k], self.modulus as int)),
            r matches Err(e) ==> (e == AlgebraError::BadBasis || e == AlgebraError::NotInvertible),
            r matches Ok(y) ==> self.contains(y) && y.ntt_form
                && forall|k: int| 0 <= k < self.n ==> (#[trigger] x@[k] * y@[k]) % (self.modulus as int) == 1int % (self.modulus as int),
    {
        if !x.ntt_form {
            return Err(AlgebraError::BadBasis);
        }
        let q = self.modulus;
        let mut v: Vec<u64> = Vec::new();
        let mut k: usize = 0;
        while k < self.n
            invariant
                self.wf(),
                self.contains(*x),
                x.ntt_form,
                q == self.modulus,
                k <= self.n,
                v@.len() == k,
                forall|j: int| 0 <= j < k ==> coprime(#[trigger] x@[j], q as int),
                forall|j: int| 0 <= j < k ==> #[trigger] v@[j] < q,
                forall|j: int| 0 <= j < k ==> (#[trigger] x@[j] * v@[j]) % (q as int) == 1int % (q as int),
            decreases self.n - k,
        {
            proof { assert(x@[k as int] == x.coefficients@[k as int] as int); }
            match crate::zq::inv_mod(x.coefficients[k], q) {
                None => {
                    proof { assert(!coprime(x@[k as int], q as int)); }
                    return Err(AlgebraError::NotInvertible);
                },
                Some(y) => {
                    v.push(y);
                },
            }
            k = k + 1;
        }
        let y = PolynomialRingInstance { coefficients: v, ntt_form: true };
        proof {
            assert forall|j: int| 0 <= j < self.n implies (#[trigger] x@[j] * y@[j]) % (q as int) == 1int % (q as int) by {
                assert(y@[j] == v@[j] as int);
            }
        }
        Ok(y)
    }

    /// `x · y⁻¹` in the transform basis.
    fn div_values(&self, x: &PolynomialRingInstance, y: &PolynomialRingInstance) -> (r: Result<PolynomialRingInstance, AlgebraError>)
        requires
            self.wf(),
            self.contains(*x),
            self.contains(*y),
        ensures
            r is Ok <==> (x.ntt_form && y.ntt_form
                && forall|k: int| 0 <= k < self.n ==> coprime(#[trigger] y@[k], self.modulus as int)),
            r matches Err(e) ==> (e == AlgebraError::BadBasis || e == AlgebraError::NotInvertible),
            r matches Ok(z) ==> self.contains(z) && z.ntt_form
                && forall|k: int| 0 <= k < self.n ==> (#[trigger] z@[k] * y@[k]) % (self.modulus as int) == x@[k] % (self.modulus as int),
    {
        if !x.ntt_form {
            return Err(AlgebraError::BadBasis);
        }
        let yi = match self.inverse_values(y) {
            Ok(v) => v,
            Err(e) => { return Err(e); },
        };
        let z = self.coefwise(x, &yi, 3);
        proof {
            let q = self.modulus as int;
            assert forall|k: int| 0 <= k < self.n implies (#[trigger] z@[k] * y@[k]) % q == x@[k] % q by {
                assert(coef(z@, k) == z@[k]);
                assert(coef(x@, k) == x@[k]);
                assert(coef(yi@, k) == yi@[k]);
                // z ≡ x·y⁻¹, so z·y ≡ x·(y⁻¹·y) ≡ x
                lemma_mul_mod_noop_general(x@[k] * yi@[k], y@[k], q);
                assert((x@[k] * yi@[k]) * y@[k] == x@[k] * (y@[k] * yi@[k])) by (nonlinear_arith);
                lemma_mul_mod_noop_general(x@[k], y@[k] * yi@[k], q);
                lemma_mul_mod_noop_general(x@[k], 1, q);
            }
        }
        Ok(z)
    }

    /// `x^e`. In the transform basis it is taken value by value. In the
    /// coefficient basis it is built by repeated ring multiplication:
    /// `x^0` is one and `x^e` the remainder of `x · x^(e-1)` modulo `Φ`,
    /// so it is the remainder of `x^e` modulo `Φ`; it always succeeds.
    pub fn pow(&self, x: &PolynomialRingInstance, e: u64) -> (r: Result<PolynomialRingInstance, AlgebraError>)
        requires
            self.wf(),
            self.contains(*x),
        ensures
            r is Ok,
            r matches Ok(z) ==> self.contains(z) && z.ntt_form == x.ntt_form,
            r matches Ok(z) ==> !x.ntt_form ==> power_rem(x@, e as nat, z@, self.phi(), self.modulus as int),
            r matches Ok(z) ==> x.ntt_form
                ==> forall|k: int| 0 <= k < self.n ==> #[trigger] z@[k] == pow(x@[k], e as nat) % (self.modulus as int),
    {
        if x.ntt_form {
            return self.pow_values(x, e);
        }
        let mut acc = self.one();
        let mut i: u64 = 0;
        proof {
            assert forall|k: int| #![trigger coef(acc@, k)] coef(acc@, k) == if k == 0 { 1int % (self.modulus as int) } else { 0 } by {}
        }
        while i < e
            invariant
                self.wf(),
                self.contains(*x),
                !x.ntt_form,
                i <= e,
                self.contains(acc),
                !acc.ntt_form,
                power_rem(x@, i as nat, acc@, self.phi(), self.modulus as int),
            decreases e - i,
        {
            let ghost prev = acc@;
            let next = match self.mul(x, &acc) {
                Ok(v) => v,
                Err(_) => { return Err(AlgebraError::BadParameters); },
            };
            proof {
                assert(reduces_to(product(x@, prev), self.phi(), next@, self.modulus as int));
                assert(power_rem(x@, (i + 1) as nat, next@, self.phi(), self.modulus as int));
            }
            acc = next;
            i = i + 1;
        }
        Ok(acc)
    }

    fn pow_values(&self, x: &PolynomialRingInstance, e: u64) -> (r: Result<PolynomialRingInstance, AlgebraError>)
        requires
            self.wf(),
            self.contains(*x),
        ensures
            r is Ok <==> x.ntt_form,
            r matches Err(e) ==> e == AlgebraError::BadBasis,
            r matches Ok(z) ==> self.contains(z) && z.ntt_form
                && forall|k: int| 0 <= k < self.n ==> #[trigger] z@[k] == pow(x@[k], e as nat) % (self.modulus as int),
    {
        if !x.ntt_form {
            return Err(AlgebraError::BadBasis);
        }
        let q = self.modulus;
        let mut v: Vec<u64> = Vec::new();
        let mut k: usize = 0;
        while k < self.n
            invariant
                self.wf(),
                self.contains(*x),
                x.ntt_form,
                q == self.modulus,
                k <= self.n,
                v@.len() == k,
                forall|j: int| 0 <= j < k ==> #[trigger] v@[j] < q,
                forall|j: int| 0 <= j < k ==> #[trigger] v@[j] as int == pow(x@[j], e as nat) % (q as int),
            decreases self.n - k,
        {
            proof { assert(x@[k as int] == x.coefficients@[k as int] as int); }
            v.push(crate::zq::pow_mod(x.coefficients[k], e, q));
            k = k + 1;
        }
        let z = PolynomialRingInstance { coefficients: v, ntt_form: true };
        proof {
            assert forall|j: int| 0 <= j < self.n implies #[trigger] z@[j] == pow(x@[j], e as nat) % (q as int) by {
                assert(z@[j] == v@[j] as int);
            }
        }
        Ok(z)
    }

    /// `y` is a coefficient vector of the ring: `1..=n` residues.
    pub open spec fn is_element_seq(&self, y: Seq<int>) -> bool {
        1 <= y.len() <= self.n && forall|i: int| 0 <= i < y.len() ==> 0 <= #[trigger] y[i] < self.modulus
    }

    /// `x` has an inverse modulo `Φ`.
    pub open spec fn has_inverse(&self, x: Seq<int>) -> bool {
        exists|y: Seq<int>| self.is_element_seq(y)
            && reduces_to(product(x, y), self.phi(), seq![1int % (self.modulus as int)], self.modulus as int)
    }

    /// The inverse of a coefficient-basis element through the transform: the
    /// values of `x` inverted one by one and transformed back.
    #[verifier::spinoff_prover]
    fn inverse_by_transform(&self, x: &PolynomialRingInstance) -> (r: Result<PolynomialRingInstance, AlgebraError>)
        requires
            self.wf(),
            self.ntt is Some,
            self.contains(*x),
            !x.ntt_form,
        ensures
            r is Ok <==> self.has_inverse(x@),
            r matches Err(e) ==> e == AlgebraError::NotInvertible,
            r matches Ok(y) ==> self.contains(y) && !y.ntt_form
                && reduces_to(product(x@, y@), self.phi(), seq![1int % (self.modulus as int)], self.modulus as int),
    {
        let ghost ctx = self.ntt.unwrap();
        let ghost q = self.modulus as int;
        let ghost n = self.n as nat;
        let ghost one = seq![1int % q];
        proof {
            assert(q > 1);
            crate::ntt_lemmas::lemma_forward_of_one(ctx, one);
        }
        let xt = match self.apply_ntt_ctxt(x) {
            Ok(v) => v,
            Err(_) => { return Err(AlgebraError::NotInvertible); },
        };
        proof {
            assert(xt@ =~= ctx.forward_seq(padded(x@, n)));
        }
        let yv = match self.inverse_values(&xt) {
            Ok(v) => v,
            Err(_) => {
                proof {
                    // some value is not a unit, so no inverse exists
                    let k = choose|k: int| 0 <= k < self.n && !coprime(#[trigger] xt@[k], q);
                    if self.has_inverse(x@) {
                        let y = choose|y: Seq<int>| self.is_element_seq(y)
                            && reduces_to(product(x@, y), self.phi(), one, q);
                        crate::ntt_lemmas::lemma_transform_of_product(*self, x@, y, one);
                        let fy = ctx.forward_seq(padded(y, n));
                        assert(crate::ntt_lemmas::pointwise_product(xt@, fy, q)[k] == ctx.forward_seq(padded(one, n))[k]);
                        assert((xt@[k] * fy[k]) % q == 1);
                        crate::ntt_lemmas::lemma_unit_factor(xt@[k], fy[k], q);
                        assert(false);
                    }
                }
                return Err(AlgebraError::NotInvertible);
            },
        };
        let y = match self.from_ntt_ctxt(&yv, false) {
            Ok(v) => v,
            Err(_) => { return Err(AlgebraError::NotInvertible); },
        };
        let z = match self.mul(x, &y) {
            Ok(v) => v,
            Err(_) => { return Err(AlgebraError::NotInvertible); },
        };
        proof {
            // the transform of y is yv, so the transform of x·y is all ones, like that of one
            assert(padded(y@, n) =~= crate::ntt_lemmas::inverse_seq(ctx, yv@));
            assert forall|i: int| 0 <= i < yv@.len() implies 0 <= #[trigger] yv@[i] < ctx.q by {
                assert(yv@[i] == yv.coefficients@[i] as int);
            }
            crate::ntt_lemmas::lemma_ntt_round_trip_dual(ctx, yv@);
            assert(ctx.forward_seq(padded(y@, n)) =~= yv@);
            assert forall|i: int| 0 <= i < z@.len() implies 0 <= #[trigger] z@[i] < self.modulus by {
                assert(z@[i] == z.coefficients@[i] as int);
            }
            crate::ntt_lemmas::lemma_transform_of_product(*self, x@, y@, z@);
            let pp = crate::ntt_lemmas::pointwise_product(ctx.forward_seq(padded(x@, n)), ctx.forward_seq(padded(y@, n)), q);
            assert(pp == ctx.forward_seq(padded(z@, n)));
            assert(ctx.forward_seq(padded(z@, n)) =~= ctx.forward_seq(padded(one, n))) by {
                assert forall|k: int| 0 <= k < n implies #[trigger] ctx.forward_seq(padded(z@, n))[k]
                    == ctx.forward_seq(padded(one, n))[k] by {
                    assert(pp[k] == (ctx.forward_seq(padded(x@, n))[k] * ctx.forward_seq(padded(y@, n))[k]) % q);
                    assert(ctx.forward_seq(padded(x@, n))[k] == xt@[k]);
                    assert(ctx.forward_seq(padded(y@, n))[k] == yv@[k]);
                    assert((xt@[k] * yv@[k]) % q == 1int % q);
                    lemma_small_mod(1, q as nat);
                }
            }
            // both are recovered by the inverse transform
            assert forall|i: int| 0 <= i < padded(z@, n).len() implies 0 <= #[trigger] padded(z@, n)[i] < ctx.q by {}
            assert forall|i: int| 0 <= i < padded(one, n).len() implies 0 <= #[trigger] padded(one, n)[i] < ctx.q by {
                lemma_mod_bound(1, q);
            }
            crate::ntt_lemmas::lemma_ntt_round_trip(ctx, padded(z@, n));
            crate::ntt_lemmas::lemma_ntt_round_trip(ctx, padded(one, n));
            assert forall|k: int| #![trigger coef(one, k)] coef(one, k) == coef(z@, k) by {
                if 0 <= k < n {
                    assert(ctx.inverse_spec(ctx.forward_seq(padded(z@, n)), k) == padded(z@, n)[k]);
                    assert(ctx.inverse_spec(ctx.forward_seq(padded(one, n)), k) == padded(one, n)[k]);
                    assert(padded(z@, n)[k] == padded(one, n)[k]);
                } else if k >= n {
                    assert(coef(z@, k) == 0);
                }
            }
            let w = choose|w: Seq<int>| divides_difference(product(x@, y@), w, self.phi(), z@, q);
            lemma_divides_difference_transfer(product(x@, y@), product(x@, y@), w, self.phi(), z@, one, q);
            assert forall|k: int| #![trigger coef(one, k)] k >= degree_of(self.phi()) implies coef(one, k) == 0 by {}
            assert(self.is_element_seq(y@)) by {
                assert forall|i: int| 0 <= i < y@.len() implies 0 <= #[trigger] y@[i] < self.modulus by {
                    assert(y@[i] == y.coefficients@[i] as int);
                }
            }
        }
        Ok(y)
    }

    /// The inverse of `x`. In the transform basis it is taken value by value
    /// and exists exactly when every value is a unit. In the coefficient
    /// basis of a ring with a transform context it is taken the same way
    /// through the transform, and exists exactly when `x` has an inverse
    /// modulo `Φ`. In a ring without one it comes from the extended Euclidean
    /// algorithm on `Φ` and `x` (the gcd rescaled to one), and is returned only
    /// once `x · y ≡ 1` modulo `Φ` has been checked; `NotInvertible` otherwise.
    pub fn inverse(&self, x: &PolynomialRingInstance) -> (r: Result<PolynomialRingInstance, AlgebraError>)
        requires
            self.wf(),
            self.contains(*x),
        ensures
            r matches Err(e) ==> e == AlgebraError::NotInvertible,
            !x.ntt_form && self.ntt is Some ==> (r is Ok <==> self.has_inverse(x@)),
            x.ntt_form ==> (r is Ok <==> forall|k: int| 0 <= k < self.n ==> coprime(#[trigger] x@[k], self.modulus as int)),
            r matches Ok(y) ==> self.contains(y) && y.ntt_form == x.ntt_form,
            r matches Ok(y) ==> x.ntt_form ==> forall|k: int| 0 <= k < self.n
                ==> (#[trigger] x@[k] * y@[k]) % (self.modulus as int) == 1int % (self.modulus as int),
            r matches Ok(y) ==> !x.ntt_form
                ==> reduces_to(product(x@, y@), self.phi(), seq![1int % (self.modulus as int)], self.modulus as int),
    {
        if x.ntt_form {
            return self.inverse_values(x);
        }
        if self.ntt.is_some() {
            return self.inverse_by_transform(x);
        }
        let q = self.modulus;
        let bound = self.n + 2;
        let mut r0 = UnivariatePolynomial::new(self.irreducible_polynomial.coefficients.clone(), q, true);
        let mut r1 = UnivariatePolynomial::new(x.coefficients.clone(), q, true);
        let mut s0 = self.zero();
        let mut s1 = self.one();
        let mut i: usize = 0;
        let mut done = false;
        while i < bound && !done
            invariant
                self.wf(),
                self.contains(*x),
                q == self.modulus,
                r0.wf() && r1.wf() && r0.modulus == q && r1.modulus == q,
                self.contains(s0) && self.contains(s1) && !s0.ntt_form && !s1.ntt_form,
                self.ntt is None,
                !x.ntt_form,
                i <= bound,
            decreases bound - i + (if done { 0int } else { 1int }),
        {
            if r1.degree().is_none() {
                done = true;
            } else {
                let (qt, rem) = match r0.divmod(&r1) {
                    Ok(pair) => pair,
                    Err(_) => { return Err(AlgebraError::NotInvertible); },
                };
                let qe = match self.apply(&qt, false) {
                    Ok(v) => v,
                    Err(_) => { return Err(AlgebraError::NotInvertible); },
                };
                let t = match self.mul(&qe, &s1) {
                    Ok(v) => v,
                    Err(_) => { return Err(AlgebraError::NotInvertible); },
                };
                let s2 = self.sub(&s0, &t);
                r0 = r1;
                r1 = rem;
                s0 = s1;
                s1 = s2;
                i = i + 1;
            }
        }
        if r0.degree() != Some(0usize) {
            return Err(AlgebraError::NotInvertible);
        }
        let c = r0.coefficients[0];
        let cinv = match crate::zq::inv_mod(c, q) {
            Some(v) => v,
            None => { return Err(AlgebraError::NotInvertible); },
        };
        let cel = match self.apply(&UnivariatePolynomial::new(vec![cinv], q, true), false) {
            Ok(v) => v,
            Err(_) => { return Err(AlgebraError::NotInvertible); },
        };
        let y = match self.mul(&s0, &cel) {
            Ok(v) => v,
            Err(_) => { return Err(AlgebraError::NotInvertible); },
        };
        let z = match self.mul(x, &y) {
            Ok(v) => v,
            Err(_) => { return Err(AlgebraError::NotInvertible); },
        };
        let o = self.one();
        if !same_values(&z.coefficients, &o.coefficients) {
            return Err(AlgebraError::NotInvertible);
        }
        proof {
            let qq = q as int;
            let target = seq![1int % qq];
            assert(z@ == o@);
            assert forall|k: int| #![trigger coef(target, k)] coef(target, k) == coef(z@, k) by {
                assert(coef(o@, k) == if k == 0 { 1int % qq } else { 0 });
            }
            let w = choose|w: Seq<int>| divides_difference(product(x@, y@), w, self.phi(), z@, qq);
            lemma_divides_difference_transfer(product(x@, y@), product(x@, y@), w, self.phi(), z@, target, qq);
            assert forall|k: int| #![trigger coef(target, k)] k >= degree_of(self.phi()) implies coef(target, k) == 0 by {}
        }
        Ok(y)
    }

    /// `x · y⁻¹`, with `y⁻¹` as `inverse` gives it. Both operands in the
    /// transform basis: value by value. Otherwise the product of `x` with the
    /// coefficient-basis inverse of `y`.
    pub fn div(&self, x: &PolynomialRingInstance, y: &PolynomialRingInstance) -> (r: Result<PolynomialRingInstance, AlgebraError>)
        requires
            self.wf(),
            self.contains(*x),
            self.contains(*y),
        ensures
            r matches Err(e) ==> e == AlgebraError::NotInvertible || e == AlgebraError::BadBasis,
            (x.ntt_form && y.ntt_form) ==> (r is Ok <==> forall|k: int| 0 <= k < self.n ==> coprime(#[trigger] y@[k], self.modulus as int)),
            !x.ntt_form && !y.ntt_form && self.ntt is Some ==> (r is Ok <==> self.has_inverse(y@)),
            r matches Ok(z) ==> self.contains(z),
            r matches Ok(z) ==> (x.ntt_form && y.ntt_form) ==> z.ntt_form && forall|k: int| 0 <= k < self.n
                ==> (#[trigger] z@[k] * y@[k]) % (self.modulus as int) == x@[k] % (self.modulus as int),
            r matches Ok(z) ==> !x.ntt_form && !y.ntt_form ==> !z.ntt_form && exists|w: Seq<int>|
                reduces_to(product(y@, w), self.phi(), seq![1int % (self.modulus as int)], self.modulus as int)
                && reduces_to(product(x@, w), self.phi(), z@, self.modulus as int),
    {
        if x.ntt_form && y.ntt_form {
            return self.div_values(x, y);
        }
        if x.ntt_form || y.ntt_form {
            return Err(AlgebraError::BadBasis);
        }
        let yi = match self.inverse(y) {
            Ok(v) => v,
            Err(e) => { return Err(e); },
        };
        let z = match self.mul(x, &yi) {
            Ok(v) => v,
            Err(_) => { return Err(AlgebraError::NotInvertible); },
        };
        Ok(z)
    }

    /// The one element in the coefficient basis.
    pub fn one(&self) -> (r: PolynomialRingInstance)
        requires
            self.wf(),
        ensures
            self.contains(r),
            !r.ntt_form,
            forall|k: int| #![trigger coef(r@, k)] coef(r@, k) == if k == 0 { 1int % (self.modulus as int) } else { 0 },
    {
        let o: Vec<u64> = vec![1 % self.modulus];
        let v = fit(&o, self.n, self.fixed_length_coefficients, self.modulus);
        let r = PolynomialRingInstance { coefficients: v, ntt_form: false };
        proof {
            assert forall|k: int| #![trigger coef(r@, k)] coef(r@, k) == if k == 0 { 1int % (self.modulus as int) } else { 0 } by {
                if 0 <= k < self.n {
                    assert(coef(r@, k) == coef(ints(o@), k));
                    if k == 0 { assert(ints(o@)[0] == o@[0] as int); }
                }
            }
        }
        r
    }
}

/// Whether two vectors hold the same values.
fn same_values(a: &Vec<u64>, b: &Vec<u64>) -> (r: bool)
    ensures
        r == (a@ == b@),
{
    if a.len() != b.len() {
        return false;
    }
    let mut i: usize = 0;
    while i < a.len()
        invariant
            a@.len() == b@.len(),
            i <= a@.len(),
            forall|j: int| 0 <= j < i ==> a@[j] == b@[j],
        decreases a@.len() - i,
    {
        if a[i] != b[i] {
            return false;
        }
        i = i + 1;
    }
    assert(a@ =~= b@);
    true
}

/// The coefficient at `i`, zero past the end.
fn coef_at(v: &Vec<u64>, i: usize, q: u64) -> (r: u64)
    requires
        q > 0,
        forall|k: int| 0 <= k < v@.len() ==> #[trigger] v@[k] < q,
    ensures
        r as int == coef(ints(v@), i as int),
        r < q,
{
    if i < v.len() {
        proof { assert(ints(v@)[i as int] == v@[i as int] as int); }
        v[i]
    } else {
        0
    }
}

#[via_fn]
pub proof fn digit_count_decreases(x: nat, b: nat) {
    if !(x == 0 || b < 2) {
        vstd::arithmetic::div_mod::lemma_div_decreases(x as int, b as int);
    }
}

/// `z` is `x^e` modulo `Φ`, computed as `x · (x^(e-1) mod Φ) mod Φ`, with `x^0 = 1`.
pub open spec fn power_rem(x: Seq<int>, e: nat, z: Seq<int>, phi: Seq<int>, q: int) -> bool
    decreases e,
{
    if e == 0 {
        forall|k: int| #![trigger coef(z, k)] coef(z, k) == if k == 0 { 1int % q } else { 0 }
    } else {
        exists|w: Seq<int>| power_rem(x, (e - 1) as nat, w, phi, q) && reduces_to(product(x, w), phi, z, q)
    }
}

/// `⌈log_b q⌉ + 1` for `q ≥ 1`: the digits of `q - 1` (the largest residue), plus one.
pub open spec fn decomposition_count(q: nat, b: nat) -> nat {
    digit_count((q - 1) as nat, b) + 1
}

/// The number of base-`b` digits of `x` (none for zero).
pub open spec fn digit_count(x: nat, b: nat) -> nat
    decreases x via digit_count_decreases
{
    if x == 0 || b < 2 {
        0
    } else {
        1 + digit_count(x / b, b)
    }
}

/// `Σ_{i < l} ((c / b^i) mod b) · b^i`: `c` written back from its first `l` base-`b` digits.
pub open spec fn digit_sum(c: nat, b: nat, l: nat) -> int
    decreases l,
{
    if l == 0 {
        0
    } else {
        digit_sum(c, b, (l - 1) as nat) + ((c / pow(b as int, (l - 1) as nat) as nat) % b) * pow(b as int, (l - 1) as nat)
    }
}

/// The first `l` base-`b` digits of `c` give `c mod b^l`.
pub proof fn lemma_digit_sum(c: nat, b: nat, l: nat)
    requires
        b >= 2,
    ensures
        pow(b as int, l) > 0,
        digit_sum(c, b, l) == c % pow(b as int, l) as nat,
    decreases l,
{
    lemma_pow_positive(b as int, l);
    if l == 0 {
        lemma_pow0(b as int);
        lemma_small_mod(0, 1);
        assert(c % 1 == 0);
    } else {
        let l1 = (l - 1) as nat;
        lemma_digit_sum(c, b, l1);
        let y = pow(b as int, l1);
        lemma_pow_positive(b as int, l1);
        lemma_mod_breakdown(c as int, y, b as int);
        assert(pow(b as int, l) == y * b) by {
            reveal(pow);
            lemma_mul_is_commutative(b as int, y);
        }
        lemma_mul_is_commutative(y, (c as int / y) % (b as int));
    }
}

/// Base decomposition: a value below `b^l` is the sum of its `l` base-`b` digits times the powers of `b`.
pub proof fn lemma_base_decomposition(c: nat, b: nat, l: nat)
    requires
        b >= 2,
        c < pow(b as int, l),
    ensures
        digit_sum(c, b, l) == c,
{
    lemma_digit_sum(c, b, l);
    lemma_small_mod(c, pow(b as int, l) as nat);
}

/// `b^(e+1) = b · b^e`.
pub proof fn lemma_pow_succ(b: int, e: nat)
    ensures
        pow(b, e + 1) == b * pow(b, e),
{
    reveal(pow);
}

proof fn lemma_pow2_64()
    ensures
        pow(2, 64) == 0x1_0000_0000_0000_0000,
{
    reveal_with_fuel(pow, 65);
}

proof fn lemma_small_div(x: int, d: int)
    requires
        0 <= x < d,
    ensures
        x / d == 0,
{
    vstd::arithmetic::div_mod::lemma_basic_div(x, d);
}

proof fn lemma_div_zero_lt(x: int, d: int)
    requires
        x >= 0,
        d > 0,
        x / d == 0,
    ensures
        x < d,
{
    vstd::arithmetic::div_mod::lemma_fundamental_div_mod(x, d);
    lemma_mod_bound(x, d);
}

proof fn lemma_div_le(x: int, d: int)
    requires
        x >= 0,
        d > 0,
    ensures
        0 <= x / d <= x,
{
    vstd::arithmetic::div_mod::lemma_div_is_ordered_by_denominator(x, 1, d);
    vstd::arithmetic::div_mod::lemma_div_pos_is_pos(x, d);
}

proof fn lemma_mod_le(x: int, d: int)
    requires
        x >= 0,
        d > 0,
    ensures
        0 <= x % d <= x,
{
    vstd::arithmetic::div_mod::lemma_mod_pos_bound(x, d);
    if x < d {
        lemma_small_mod(x as nat, d as nat);
    }
}

proof fn lemma_div_mono(t: int, u: int, b: int, c: int)
    requires
        0 <= t <= u,
        2 <= c <= b,
    ensures
        t / b <= u / c,
{
    vstd::arithmetic::div_mod::lemma_div_is_ordered(t, u, b);
    vstd::arithmetic::div_mod::lemma_div_is_ordered_by_denominator(u, c, b);
}

} // verus!
