use vstd::prelude::*;
use vstd::arithmetic::div_mod::{
    lemma_mod_bound, lemma_mul_mod_noop_general, lemma_small_mod,
    lemma_sub_mod_noop, lemma_add_mod_noop, lemma_sub_mod_noop_right,
};
use vstd::arithmetic::mul::{lemma_mul_is_associative,
    lemma_mul_is_commutative};
use crate::error::AlgebraError;
use crate::zq::{add_mod, inv_mod, mul_mod, sub_mod, valid_modulus, coprime};

verus! {

/// The coefficient of `x^i` in the sequence `s`; zero past its end.
pub open spec fn coef(s: Seq<int>, i: int) -> int {
    if 0 <= i < s.len() {
        s[i]
    } else {
        0
    }
}

/// `Σ_{t < n} coef(a, t) · coef(b, k - t)`: the first `n` terms of the
/// coefficient of `x^k` in `a · b`.
pub open spec fn conv_sum(a: Seq<int>, b: Seq<int>, k: int, n: nat) -> int
    decreases n,
{
    if n == 0 {
        0
    } else {
        conv_sum(a, b, k, (n - 1) as nat) + coef(a, n - 1) * coef(b, k - (n - 1))
    }
}

/// The coefficient of `x^k` in the product `a · b` over the integers.
pub open spec fn conv(a: Seq<int>, b: Seq<int>, k: int) -> int {
    conv_sum(a, b, k, a.len())
}

/// `u64` coefficients seen as integers.
pub open spec fn ints(v: Seq<u64>) -> Seq<int> {
    v.map_values(|x: u64| x as int)
}

/// The index of the last non-zero entry, or `-1` for the zero polynomial.
pub open spec fn degree_of(s: Seq<int>) -> int
    decreases s.len(),
{
    if s.len() == 0 {
        -1
    } else if s.last() != 0 {
        s.len() - 1
    } else {
        degree_of(s.drop_last())
    }
}

/// A dense univariate polynomial over the residues modulo `modulus`,
/// `coefficients[i]` being the coefficient of `x^i`.
#[derive(Debug, Clone, PartialEq, Eq)]
pub struct UnivariatePolynomial {
    pub coefficients: Vec<u64>,
    pub modulus: u64,
    pub clean: bool,
}

impl UnivariatePolynomial {
    pub open spec fn view(&self) -> Seq<int> {
        ints(self.coefficients@)
    }

    pub open spec fn wf(&self) -> bool {
        &&& valid_modulus(self.modulus as int)
        &&& self.coefficients@.len() >= 1
        &&& forall|i: int| 0 <= i < self.coefficients@.len() ==> self.coefficients@[i] < self.modulus
        &&& (self.clean && self.coefficients@.len() >= 2) ==> self.coefficients@.last() != 0
    }

    /// Builds a polynomial from coefficients reduced modulo `modulus`; when
    /// `clean`, trailing zeros are dropped, keeping at least one coefficient.
    pub fn new(coefficients: Vec<u64>, modulus: u64, clean: bool) -> (r: UnivariatePolynomial)
        requires
            valid_modulus(modulus as int),
        ensures
            r.wf(),
            r.modulus == modulus,
            r.clean == clean,
            forall|i: int| #![trigger coef(r@, i)]
                coef(r@, i) == coef(ints(coefficients@), i) % (modulus as int),
            !clean ==> r.coefficients@.len() == if coefficients@.len() == 0 { 1 } else {
                coefficients@.len() as int },
    {
        let mut c: Vec<u64> = Vec::new();
        let mut i: usize = 0;
        while i < coefficients.len()
            invariant
                valid_modulus(modulus as int),
                i <= coefficients.len(),
                c@.len() == i,
                forall|j: int| 0 <= j < i ==> c@[j] as int == (coefficients@[j] as int) % (modulus as int),
            decreases coefficients.len() - i,
        {
            c.push(coefficients[i] % modulus);
            i = i + 1;
        }
        if c.len() == 0 {
            c.push(0);
        }
        proof {
            assert forall|j: int| 0 <= j < c@.len() implies c@[j] < modulus by {
                if coefficients@.len() > 0 {
                    lemma_mod_bound(coefficients@[j] as int, modulus as int);
                }
            }
        }
        let ghost before = c@;
        if clean {
            while c.len() >= 2 && c[c.len() - 1] == 0
                invariant
                    c@.len() >= 1,
                    c@.len() <= before.len(),
                    c@ == before.subrange(0, c@.len() as int),
                    forall|j: int| c@.len() <= j < before.len() ==> before[j] == 0,
                decreases c.len(),
            {
                c.pop();
            }
        }
        let r = UnivariatePolynomial { coefficients: c, modulus, clean };
        proof {
            assert forall|i: int| #![trigger coef(r@, i)]
                coef(r@, i) == coef(ints(coefficients@), i) % (modulus as int) by {
                lemma_small_mod(0, modulus as nat);
                if 0 <= i < r@.len() {
                    assert(r@[i] == before[i] as int);
                    if coefficients@.len() > 0 {
                        assert(ints(coefficients@)[i] == coefficients@[i] as int);
                    }
                } else if 0 <= i < before.len() {
                    assert(before[i] == 0);
                    if coefficients@.len() > 0 {
                        assert(ints(coefficients@)[i] == coefficients@[i] as int);
                    }
                }
            }
        }
        r
    }

    /// The zero polynomial `[0]`.
    pub fn zero(modulus: u64, clean: bool) -> (r: UnivariatePolynomial)
        requires
            valid_modulus(modulus as int),
        ensures
            r.wf(),
            r.modulus == modulus,
            r.clean == clean,
            r@ == seq![0int],
    {
        let r = UnivariatePolynomial { coefficients: vec![0u64], modulus, clean };
        assert(r@ =~= seq![0int]);
        r
    }

    /// Number of stored coefficients.
    pub fn len(&self) -> (r: usize)
        ensures
            r == self.coefficients@.len(),
    {
        self.coefficients.len()
    }

    /// Index of the last non-zero coefficient; `None` for the zero polynomial.
    pub fn degree(&self) -> (r: Option<usize>)
        ensures
            r is None <==> degree_of(self@) == -1,
            r matches Some(d) ==> d as int == degree_of(self@),
    {
        let mut n: usize = self.coefficients.len();
        assert(self@.subrange(0, n as int) =~= self@);
        while n > 0 && self.coefficients[n - 1] == 0
            invariant
                n <= self.coefficients@.len(),
                degree_of(self@) == degree_of(self@.subrange(0, n as int)),
            decreases n,
        {
            proof {
                let s = self@.subrange(0, n as int);
                assert(s.drop_last() =~= self@.subrange(0, n - 1));
            }
            n = n - 1;
        }
        proof {
            let s = self@.subrange(0, n as int);
            if n == 0 {
                assert(s.len() == 0);
            }
        }
        if n == 0 {
            None
        } else {
            Some(n - 1)
        }
    }

    /// The coefficient of `x^i` as a residue; zero past the end.
    pub fn coefficient(&self, i: usize) -> (r: u64)
        requires
            self.wf(),
        ensures
            r as int == coef(self@, i as int),
            r < self.modulus,
    {
        if i < self.coefficients.len() {
            self.coefficients[i]
        } else {
            0
        }
    }

    /// Coefficient-wise sum, padded to the longer operand.
    pub fn add(&self, other: &UnivariatePolynomial) -> (r: Result<UnivariatePolynomial, AlgebraError>)
        requires
            self.wf(),
            other.wf(),
        ensures
            r is Err <==> self.modulus != other.modulus,
            r matches Err(e) ==> e == AlgebraError::DomainMismatch,
            r matches Ok(p) ==> p.wf() && p.modulus == self.modulus && p.clean == self.clean
                && forall|i: int| #![trigger coef(p@, i)]
                    coef(p@, i) == (coef(self@, i) + coef(other@, i)) % (self.modulus as int),
    {
        if self.modulus != other.modulus {
            return Err(AlgebraError::DomainMismatch);
        }
        let q = self.modulus;
        let n: usize = if self.coefficients.len() >= other.coefficients.len() {
            self.coefficients.len()
        } else {
            other.coefficients.len()
        };
        let mut c: Vec<u64> = Vec::new();
        let mut i: usize = 0;
        while i < n
            invariant
                self.wf(),
                other.wf(),
                q == self.modulus,
                other.modulus == q,
                n >= self.coefficients@.len(),
                n >= other.coefficients@.len(),
                i <= n,
                c@.len() == i,
                forall|j: int| 0 <= j < i ==> c@[j] as int == (coef(self@, j) + coef(other@, j)) % (q as int),
            decreases n - i,
        {
            let v = add_mod(self.coefficient(i), other.coefficient(i), q);
            c.push(v);
            i = i + 1;
        }
        let ghost cv = c@;
        let p = UnivariatePolynomial::new(c, q, self.clean);
        proof {
            assert forall|i: int| #![trigger coef(p@, i)]
                coef(p@, i) == (coef(self@, i) + coef(other@, i)) % (q as int) by {
                lemma_small_mod(0, q as nat);
                if 0 <= i < cv.len() {
                    assert(ints(cv)[i] == cv[i] as int);
                    lemma_mod_bound(coef(self@, i) + coef(other@, i), q as int);
                    lemma_small_mod(cv[i] as nat, q as nat);
                }
            }
        }
        Ok(p)
    }

    /// Coefficient-wise difference, padded to the longer operand.
    pub fn sub(&self, other: &UnivariatePolynomial) -> (r: Result<UnivariatePolynomial, AlgebraError>)
        requires
            self.wf(),
            other.wf(),
        ensures
            r is Err <==> self.modulus != other.modulus,
            r matches Err(e) ==> e == AlgebraError::DomainMismatch,
            r matches Ok(p) ==> p.wf() && p.modulus == self.modulus && p.clean == self.clean
                && forall|i: int| #![trigger coef(p@, i)]
                    coef(p@, i) == (coef(self@, i) - coef(other@, i)) % (self.modulus as int),
    {
        if self.modulus != other.modulus {
            return Err(AlgebraError::DomainMismatch);
        }
        let q = self.modulus;
        let n: usize = if self.coefficients.len() >= other.coefficients.len() {
            self.coefficients.len()
        } else {
            other.coefficients.len()
        };
        let mut c: Vec<u64> = Vec::new();
        let mut i: usize = 0;
        while i < n
            invariant
                self.wf(),
                other.wf(),
                q == self.modulus,
                other.modulus == q,
                n >= self.coefficients@.len(),
                n >= other.coefficients@.len(),
                i <= n,
                c@.len() == i,
                forall|j: int| 0 <= j < i ==> c@[j] as int == (coef(self@, j) - coef(other@, j)) % (q as int),
            decreases n - i,
        {
            let v = sub_mod(self.coefficient(i), other.coefficient(i), q);
            c.push(v);
            i = i + 1;
        }
        let ghost cv = c@;
        let p = UnivariatePolynomial::new(c, q, self.clean);
        proof {
            assert forall|i: int| #![trigger coef(p@, i)]
                coef(p@, i) == (coef(self@, i) - coef(other@, i)) % (q as int) by {
                lemma_small_mod(0, q as nat);
                if 0 <= i < cv.len() {
                    assert(ints(cv)[i] == cv[i] as int);
                    lemma_mod_bound(coef(self@, i) - coef(other@, i), q as int);
                    lemma_small_mod(cv[i] as nat, q as nat);
                }
            }
        }
        Ok(p)
    }

    /// Every coefficient multiplied by the residue `c`.
    pub fn scalar_mul(&self, c: u64) -> (r: UnivariatePolynomial)
        requires
            self.wf(),
        ensures
            r.wf(),
            r.modulus == self.modulus,
            r.clean == self.clean,
            forall|i: int| #![trigger coef(r@, i)]
                coef(r@, i) == (c * coef(self@, i)) % (self.modulus as int),
    {
        let q = self.modulus;
        let mut v: Vec<u64> = Vec::new();
        let mut i: usize = 0;
        while i < self.coefficients.len()
            invariant
                self.wf(),
                q == self.modulus,
                i <= self.coefficients@.len(),
                v@.len() == i,
                forall|j: int| 0 <= j < i ==> v@[j] as int == (c * coef(self@, j)) % (q as int),
            decreases self.coefficients@.len() - i,
        {
            let x = mul_mod(c, self.coefficients[i], q);
            v.push(x);
            i = i + 1;
        }
        let ghost vv = v@;
        let p = UnivariatePolynomial::new(v, q, self.clean);
        proof {
            assert forall|i: int| #![trigger coef(p@, i)]
                coef(p@, i) == (c * coef(self@, i)) % (q as int) by {
                lemma_small_mod(0, q as nat);
                if 0 <= i < vv.len() {
                    assert(ints(vv)[i] == vv[i] as int);
                    lemma_mod_bound(c * coef(self@, i), q as int);
                    lemma_small_mod(vv[i] as nat, q as nat);
                }
            }
        }
        p
    }

    /// Schoolbook product: the coefficient of `x^k` is `Σ_{i+j=k} a_i b_j`.
    pub fn mul(&self, other: &UnivariatePolynomial) -> (r: Result<UnivariatePolynomial, AlgebraError>)
        requires
            self.wf(),
            other.wf(),
            self.coefficients@.len() + other.coefficients@.len() <= usize::MAX,
        ensures
            r is Err <==> self.modulus != other.modulus,
            r matches Err(e) ==> e == AlgebraError::DomainMismatch,
            r matches Ok(p) ==> p.wf() && p.modulus == self.modulus && p.clean == self.clean
                && forall|k: int| #![trigger coef(p@, k)]
                    coef(p@, k) == conv(self@, other@, k) % (self.modulus as int),
    {
        if self.modulus != other.modulus {
            return Err(AlgebraError::DomainMismatch);
        }
        let q = self.modulus;
        let la = self.coefficients.len();
        let lb = other.coefficients.len();
        let n: usize = la + lb - 1;
        let mut c: Vec<u64> = Vec::new();
        let mut k: usize = 0;
        while k < n
            invariant
                self.wf(),
                other.wf(),
                q == self.modulus,
                la == self.coefficients@.len(),
                lb == other.coefficients@.len(),
                n == la + lb - 1,
                k <= n,
                c@.len() == k,
                forall|j: int| 0 <= j < k ==> c@[j] as int == conv(self@, other@, j) % (q as int),
            decreases n - k,
        {
            let mut acc: u64 = 0;
            let mut t: usize = 0;
            proof { lemma_small_mod(0, q as nat); }
            while t < la
                invariant
                    self.wf(),
                    other.wf(),
                    q == self.modulus,
                    la == self.coefficients@.len(),
                    lb == other.coefficients@.len(),
                    k < n,
                    t <= la,
                    acc < q,
                    acc as int == conv_sum(self@, other@, k as int, t as nat) % (q as int),
                decreases la - t,
            {
                if k >= t && k - t < lb {
                    let term = mul_mod(self.coefficients[t], other.coefficients[k - t], q);
                    proof {
                        lemma_add_mod_noop(conv_sum(self@, other@, k as int, t as nat),
                            coef(self@, t as int) * coef(other@, k - t), q as int);
                        lemma_mod_bound(coef(self@, t as int) * coef(other@, k - t), q as int);
                        lemma_small_mod(term as nat, q as nat);
                        lemma_small_mod(acc as nat, q as nat);
                    }
                    acc = add_mod(acc, term, q);
                } else {
                    proof {
                        assert(coef(other@, k - t) == 0);
                        assert(conv_sum(self@, other@, k as int, (t + 1) as nat)
                            == conv_sum(self@, other@, k as int, t as nat));
                    }
                }
                t = t + 1;
            }
            c.push(acc);
            k = k + 1;
        }
        let ghost cv = c@;
        let p = UnivariatePolynomial::new(c, q, self.clean);
        proof {
            assert forall|k: int| #![trigger coef(p@, k)]
                coef(p@, k) == conv(self@, other@, k) % (q as int) by {
                lemma_small_mod(0, q as nat);
                if 0 <= k < cv.len() {
                    assert(ints(cv)[k] == cv[k] as int);
                    lemma_mod_bound(conv(self@, other@, k), q as int);
                    lemma_small_mod(cv[k] as nat, q as nat);
                } else {
                    lemma_conv_outside(self@, other@, k, self@.len());
                }
            }
        }
        Ok(p)
    }

    /// Euclidean division: `(quotient, remainder)` with
    /// `self ≡ quotient · divisor + remainder` coefficient-wise modulo `q`
    /// and every coefficient of the remainder at or above `deg divisor` zero.
    #[verifier::spinoff_prover]
    pub fn divmod(&self, divisor: &UnivariatePolynomial)
        -> (r: Result<(UnivariatePolynomial, UnivariatePolynomial), AlgebraError>)
        requires
            self.wf(),
            divisor.wf(),
        ensures
            self.modulus != divisor.modulus ==> r == Err::<(UnivariatePolynomial, UnivariatePolynomial), AlgebraError>(AlgebraError::DomainMismatch),
            self.modulus == divisor.modulus && degree_of(divisor@) == -1
                ==> r == Err::<(UnivariatePolynomial, UnivariatePolynomial), AlgebraError>(AlgebraError::DivByZeroPoly),
            self.modulus == divisor.modulus && degree_of(divisor@) >= 0
                && !coprime(divisor@[degree_of(divisor@)], self.modulus as int)
                ==> r == Err::<(UnivariatePolynomial, UnivariatePolynomial), AlgebraError>(AlgebraError::NotInvertible),
            r is Ok <==> (self.modulus == divisor.modulus && degree_of(divisor@) >= 0
                && coprime(divisor@[degree_of(divisor@)], self.modulus as int)),
            r matches Ok((qt, rm)) ==> {
                &&& qt.wf() && rm.wf()
                &&& qt.modulus == self.modulus && rm.modulus == self.modulus
                &&& divides_difference(self@, qt@, divisor@, rm@, self.modulus as int)
                &&& forall|k: int| #![trigger coef(rm@, k)] k >= degree_of(divisor@) ==> coef(rm@, k) == 0
            },
    {
        if self.modulus != divisor.modulus {
            return Err(AlgebraError::DomainMismatch);
        }
        let q = self.modulus;
        let db: usize = match divisor.degree() {
            None => { return Err(AlgebraError::DivByZeroPoly); },
            Some(d) => d,
        };
        proof { lemma_degree_of_facts(divisor@); }
        let lc = divisor.coefficients[db];
        let lc_inv: u64 = match inv_mod(lc, q) {
            None => {
                proof { lemma_small_mod(lc as nat, q as nat); }
                return Err(AlgebraError::NotInvertible);
            },
            Some(y) => y,
        };
        proof { lemma_small_mod(lc as nat, q as nat); }
        let la = self.coefficients.len();
        let mut rv: Vec<u64> = self.coefficients.clone();
        assert(rv@ == self.coefficients@);
        let nq: usize = if la > db { la - db } else { 1 };
        let mut qv: Vec<u64> = Vec::new();
        let mut z: usize = 0;
        while z < nq
            invariant
                z <= nq,
                qv@.len() == z,
                forall|j: int| 0 <= j < z ==> qv@[j] == 0,
            decreases nq - z,
        {
            qv.push(0);
            z = z + 1;
        }
        proof {
            assert forall|k: int| #![trigger coef(self@, k)]
                (coef(self@, k) - conv(ints(qv@), divisor@, k) - coef(ints(rv@), k)) % (q as int) == 0 by {
                lemma_conv_zero_left(ints(qv@), divisor@, k, ints(qv@).len());
                lemma_small_mod(0, q as nat);
            }
        }
        if la > db {
            let mut step: usize = 0;
            while step < nq
                invariant
                    self.wf(),
                    divisor.wf(),
                    q == self.modulus,
                    divisor.modulus == q,
                    db as int == degree_of(divisor@),
                    la == self.coefficients@.len(),
                    la > db,
                    nq == la - db,
                    step <= nq,
                    db < divisor.coefficients@.len(),
                    lc == divisor.coefficients@[db as int],
                    lc_inv < q,
                    (lc * lc_inv) % (q as int) == 1int % (q as int),
                    qv@.len() == nq,
                    rv@.len() == la,
                    forall|j: int| 0 <= j < la ==> rv@[j] < q,
                    forall|j: int| 0 <= j < nq ==> qv@[j] < q,
                    forall|j: int| 0 <= j < nq - step ==> qv@[j] == 0,
                    forall|j: int| nq - step + db <= j < la ==> rv@[j] == 0,
                    forall|k: int| #![trigger coef(self@, k)]
                        (coef(self@, k) - conv(ints(qv@), divisor@, k) - coef(ints(rv@), k)) % (q as int) == 0,
                decreases nq - step,
            {
                let i: usize = nq - 1 - step;
                let top = rv[i + db];
                let c: u64 = mul_mod(top, lc_inv, q);
                let mut nr: Vec<u64> = Vec::new();
                let mut t: usize = 0;
                while t < la
                    invariant
                        divisor.wf(),
                        q == divisor.modulus,
                        valid_modulus(q as int),
                        t <= la,
                        rv@.len() == la,
                        nr@.len() == t,
                        forall|j: int| 0 <= j < t ==> nr@[j] as int
                            == (rv@[j] - c * coef(divisor@, j - i)) % (q as int),
                        forall|j: int| 0 <= j < t ==> nr@[j] < q,
                    decreases la - t,
                {
                    let bt: u64 = if t >= i { divisor.coefficient(t - i) } else { 0 };
                    let prod = mul_mod(c, bt, q);
                    proof {
                        lemma_mod_bound(rv@[t as int] as int, q as int);
                    }
                    let ghost rt = rv@[t as int];
                    let v = sub_mod(rv[t] % q, prod, q);
                    proof {
                        lemma_sub_mod_noop(rt as int, c * coef(divisor@, t - i), q as int);
                        lemma_mod_bound(rt as int, q as int);
                        lemma_small_mod((rt as int % q as int) as nat, q as nat);
                    }
                    nr.push(v);
                    t = t + 1;
                }
                proof {
                    assert(divisor@[db as int] == lc as int);
                    assert(ints(rv@)[(i + db) as int] == top as int);
                    assert forall|j: int| 0 <= j < la implies 0 <= #[trigger] ints(rv@)[j] && ints(rv@)[j] < q by {
                        assert(ints(rv@)[j] == rv@[j] as int);
                    }
                    assert forall|j: int| 0 <= j < la implies #[trigger] ints(nr@)[j]
                        == (ints(rv@)[j] - c * coef(divisor@, j - i)) % (q as int) by {
                        assert(ints(rv@)[j] == rv@[j] as int);
                        assert(ints(nr@)[j] == nr@[j] as int);
                    }
                    assert forall|j: int| nq - step + db <= j < la implies #[trigger] ints(rv@)[j] == 0 by {
                        assert(ints(rv@)[j] == rv@[j] as int);
                    }
                    assert(ints(qv@)[i as int] == 0);
                    lemma_divmod_step(self@, ints(qv@), divisor@, ints(rv@), ints(nr@), i as int,
                        c as int, q as int, db as int, lc as int, lc_inv as int, top as int, nq as int, step as int);
                    assert(ints(qv@.update(i as int, c)) =~= ints(qv@).update(i as int, c as int));
                    lemma_conv_update(ints(qv@), divisor@, i as int, c as int);
                    assert forall|j: int| nq - (step + 1) + db <= j < la implies nr@[j] == 0 by {
                        assert(ints(nr@)[j] == nr@[j] as int);
                    }
                }
                qv.set(i, c);
                rv = nr;
                step = step + 1;
            }
        }
        let ghost qs = qv@;
        let ghost rs = rv@;
        let qt = UnivariatePolynomial::new(qv, q, self.clean);
        let rm = UnivariatePolynomial::new(rv, q, self.clean);
        proof {
            assert forall|j: int| 0 <= j < qs.len() implies qs[j] < q by {}
            lemma_same_coefs_reduced(qs, qt@, q as int);
            lemma_same_coefs_reduced(rs, rm@, q as int);
            lemma_conv_ext(ints(qs), qt@, divisor@);
            assert forall|k: int| #![trigger coef(self@, k)]
                (coef(self@, k) - conv(qt@, divisor@, k) - coef(rm@, k)) % (q as int) == 0 by {
                assert(coef(rm@, k) == coef(ints(rs), k));
                assert(conv(qt@, divisor@, k) == conv(ints(qs), divisor@, k));
            }
            assert forall|k: int| #![trigger coef(rm@, k)] k >= degree_of(divisor@) implies coef(rm@, k) == 0 by {
                assert(coef(rm@, k) == coef(ints(rs), k));
                if 0 <= k < rs.len() {
                    if la > db {
                        assert(rs[k] == 0);
                    } else {
                        assert(false);
                    }
                }
            }
        }
        Ok((qt, rm))
    }
}

/// Terms of the product vanish outside `[0, len a + len b - 1)`.
pub proof fn lemma_conv_outside(a: Seq<int>, b: Seq<int>, k: int, n: nat)
    requires
        n <= a.len(),
        k < 0 || k >= a.len() + b.len() - 1,
    ensures
        conv_sum(a, b, k, n) == 0,
    decreases n,
{
    if n > 0 {
        lemma_conv_outside(a, b, k, (n - 1) as nat);
        assert(coef(b, k - (n - 1)) == 0);
    }
}

/// `a - qt·b - r` vanishes modulo `q` in every coefficient.
pub open spec fn divides_difference(a: Seq<int>, qt: Seq<int>, b: Seq<int>, r: Seq<int>, q: int) -> bool {
    forall|k: int| #![trigger coef(a, k)] (coef(a, k) - conv(qt, b, k) - coef(r, k)) % q == 0
}

/// A degree is an index of the sequence.
pub proof fn lemma_degree_of_bound(s: Seq<int>)
    ensures
        -1 <= degree_of(s) < s.len(),
    decreases s.len(),
{
    if s.len() > 0 && s.last() == 0 {
        lemma_degree_of_bound(s.drop_last());
    }
}

proof fn lemma_degree_of_facts(s: Seq<int>)
    requires
        degree_of(s) >= 0,
    ensures
        degree_of(s) < s.len(),
        s[degree_of(s)] != 0,
        forall|j: int| #![trigger coef(s, j)] j > degree_of(s) ==> coef(s, j) == 0,
    decreases s.len(),
{
    if s.last() == 0 {
        lemma_degree_of_facts(s.drop_last());
        assert forall|j: int| #![trigger coef(s, j)] j > degree_of(s) implies coef(s, j) == 0 by {
            if j < s.len() - 1 {
                assert(coef(s.drop_last(), j) == 0);
            }
        }
    }
}

proof fn lemma_conv_zero_left(a: Seq<int>, b: Seq<int>, k: int, n: nat)
    requires
        n <= a.len(),
        forall|j: int| 0 <= j < a.len() ==> a[j] == 0,
    ensures
        conv_sum(a, b, k, n) == 0,
    decreases n,
{
    if n > 0 {
        lemma_conv_zero_left(a, b, k, (n - 1) as nat);
    }
}

/// Setting one coefficient of the left factor from zero to `c` adds `c · b_{k-i}`.
proof fn lemma_conv_update(a: Seq<int>, b: Seq<int>, i: int, c: int)
    requires
        0 <= i < a.len(),
        a[i] == 0,
    ensures
        forall|k: int| #![trigger conv(a.update(i, c), b, k)]
            conv(a.update(i, c), b, k) == conv(a, b, k) + c * coef(b, k - i),
{
    assert forall|k: int| #![trigger conv(a.update(i, c), b, k)]
        conv(a.update(i, c), b, k) == conv(a, b, k) + c * coef(b, k - i) by {
        lemma_conv_sum_update(a, b, i, c, k, a.len());
    }
}

proof fn lemma_conv_sum_update(a: Seq<int>, b: Seq<int>, i: int, c: int, k: int, n: nat)
    requires
        0 <= i < a.len(),
        a[i] == 0,
        n <= a.len(),
    ensures
        conv_sum(a.update(i, c), b, k, n) == conv_sum(a, b, k, n) + if i < n { c * coef(b, k - i) } else { 0 },
    decreases n,
{
    if n > 0 {
        lemma_conv_sum_update(a, b, i, c, k, (n - 1) as nat);
    }
}

/// `conv` depends on the left factor's coefficients only.
proof fn lemma_conv_ext(a: Seq<int>, a2: Seq<int>, b: Seq<int>)
    requires
        forall|j: int| #![trigger coef(a2, j)] coef(a2, j) == coef(a, j),
    ensures
        forall|k: int| #![trigger conv(a2, b, k)] conv(a2, b, k) == conv(a, b, k),
{
    assert forall|k: int| #![trigger conv(a2, b, k)] conv(a2, b, k) == conv(a, b, k) by {
        let m: nat = if a.len() >= a2.len() { a.len() } else { a2.len() };
        lemma_conv_sum_extend(a, b, k, a.len(), m);
        lemma_conv_sum_extend(a2, b, k, a2.len(), m);
        lemma_conv_sum_same(a, a2, b, k, m);
    }
}

proof fn lemma_conv_sum_extend(a: Seq<int>, b: Seq<int>, k: int, n: nat, m: nat)
    requires
        n == a.len(),
        n <= m,
    ensures
        conv_sum(a, b, k, m) == conv_sum(a, b, k, n),
    decreases m,
{
    if m > n {
        lemma_conv_sum_extend(a, b, k, n, (m - 1) as nat);
    }
}

proof fn lemma_conv_sum_same(a: Seq<int>, a2: Seq<int>, b: Seq<int>, k: int, m: nat)
    requires
        forall|j: int| #![trigger coef(a2, j)] coef(a2, j) == coef(a, j),
    ensures
        conv_sum(a2, b, k, m) == conv_sum(a, b, k, m),
    decreases m,
{
    if m > 0 {
        lemma_conv_sum_same(a, a2, b, k, (m - 1) as nat);
        assert(coef(a2, m - 1) == coef(a, m - 1));
    }
}

/// A vector of residues and the polynomial built from it have the same coefficients.
proof fn lemma_same_coefs_reduced(v: Seq<u64>, p: Seq<int>, q: int)
    requires
        q > 0,
        forall|j: int| 0 <= j < v.len() ==> v[j] < q,
        forall|i: int| #![trigger coef(p, i)] coef(p, i) == coef(ints(v), i) % q,
    ensures
        forall|i: int| #![trigger coef(p, i)] coef(p, i) == coef(ints(v), i),
{
    assert forall|i: int| #![trigger coef(p, i)] coef(p, i) == coef(ints(v), i) by {
        if 0 <= i < v.len() {
            assert(ints(v)[i] == v[i] as int);
            lemma_small_mod(v[i] as nat, q as nat);
        } else {
            lemma_small_mod(0, q as nat);
        }
    }
}

#[verifier::spinoff_prover]
proof fn lemma_divmod_step(a: Seq<int>, qs: Seq<int>, b: Seq<int>, rs: Seq<int>, ns: Seq<int>,
    i: int, c: int, q: int, db: int, lc: int, inv: int, top: int, nq: int, step: int)
    requires
        q > 0,
        db == degree_of(b),
        db >= 0,
        lc == b[db],
        (lc * inv) % q == 1int % q,
        rs.len() == a.len(),
        ns.len() == a.len(),
        nq == a.len() - db,
        0 <= step < nq,
        i == nq - 1 - step,
        top == rs[i + db],
        c == (top * inv) % q,
        forall|j: int| 0 <= j < rs.len() ==> 0 <= #[trigger] rs[j] && rs[j] < q,
        forall|j: int| 0 <= j < ns.len() ==> ns[j] == (rs[j] - c * coef(b, j - i)) % q,
        forall|j: int| nq - step + db <= j < a.len() ==> rs[j] == 0,
        forall|k: int| #![trigger coef(a, k)] (coef(a, k) - conv(qs, b, k) - coef(rs, k)) % q == 0,
        qs.len() == nq,
        qs[i] == 0,
    ensures
        forall|j: int| nq - (step + 1) + db <= j < a.len() ==> ns[j] == 0,
        forall|j: int| 0 <= j < ns.len() ==> 0 <= #[trigger] ns[j] && ns[j] < q,
        forall|k: int| #![trigger coef(a, k)]
            (coef(a, k) - conv(qs.update(i, c), b, k) - coef(ns, k)) % q == 0,
{
    lemma_degree_of_facts(b);
    lemma_conv_update(qs, b, i, c);
    assert forall|j: int| 0 <= j < ns.len() implies 0 <= #[trigger] ns[j] && ns[j] < q by {
        lemma_mod_bound(rs[j] - c * coef(b, j - i), q);
    }
    assert forall|j: int| nq - (step + 1) + db <= j < a.len() implies ns[j] == 0 by {
        if j == i + db {
            // top - (top·inv mod q)·lc ≡ top - top·(inv·lc) ≡ 0
            lemma_mul_mod_noop_general(top * inv, lc, q);
            lemma_mul_is_associative(top, inv, lc);
            lemma_mul_is_commutative(inv, lc);
            lemma_mul_mod_noop_general(top, inv * lc, q);
            lemma_mul_mod_noop_general(top, 1, q);
            lemma_sub_mod_noop(top, c * lc, q);
            lemma_mod_bound(top, q);
            lemma_small_mod(top as nat, q as nat);
            lemma_small_mod(0, q as nat);
            assert((top - c * lc) % q == ((top % q) - ((c * lc) % q)) % q);
            assert((c * lc) % q == (top * (inv * lc)) % q);
            assert((top * (inv * lc)) % q == (top * ((inv * lc) % q)) % q);
            assert((top * (1int % q)) % q == (top * 1) % q);
        } else {
            assert(coef(b, j - i) == 0);
            lemma_small_mod(rs[j] as nat, q as nat);
        }
    }
    assert forall|k: int| #![trigger coef(a, k)]
        (coef(a, k) - conv(qs.update(i, c), b, k) - coef(ns, k)) % q == 0 by {
        let cb = c * coef(b, k - i);
        assert(conv(qs.update(i, c), b, k) == conv(qs, b, k) + cb);
        if 0 <= k < ns.len() {
            lemma_sub_mod_noop_right(coef(a, k) - conv(qs, b, k) - cb, rs[k] - cb, q);
            assert(coef(a, k) - conv(qs, b, k) - cb - (rs[k] - cb) == coef(a, k) - conv(qs, b, k) - coef(rs, k));
        } else if k >= ns.len() {
            assert(k - i > db);
            assert(coef(b, k - i) == 0);
            assert(cb == 0);
        } else {
            assert(k < 0);
            assert(coef(b, k - i) == 0);
        }
    }
}

} // verus!
