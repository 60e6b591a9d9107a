use vstd::prelude::*;
use vstd::arithmetic::div_mod::{lemma_add_mod_noop, lemma_small_mod, lemma_mod_bound};
use crate::error::AlgebraError;
use crate::matrix::Matrix;
use crate::upoly::ints;
use crate::zq::{add_mod, mul_mod, valid_modulus};

verus! {

/// `Σ_{i < n} f(v_i)` for the weight `w`: `w == 1` sums the entries, `w == 2` their squares.
pub open spec fn power_sum(v: Seq<int>, n: nat, w: nat) -> int
    decreases n,
{
    if n == 0 {
        0
    } else {
        power_sum(v, (n - 1) as nat, w) + if w == 2 { v[n - 1] * v[n - 1] } else { v[n - 1] }
    }
}

/// `Σ_{i < n} a_i · b_i`.
pub open spec fn dot(a: Seq<int>, b: Seq<int>, n: nat) -> int
    decreases n,
{
    if n == 0 {
        0
    } else {
        dot(a, b, (n - 1) as nat) + a[n - 1] * b[n - 1]
    }
}

/// A vector of residues modulo `modulus`.
#[derive(Debug, Clone)]
pub struct Vector {
    pub values: Vec<u64>,
    pub len: usize,
    pub modulus: u64,
}

impl Vector {
    pub open spec fn view(&self) -> Seq<int> {
        ints(self.values@)
    }

    pub open spec fn wf(&self) -> bool {
        &&& valid_modulus(self.modulus as int)
        &&& self.values@.len() == self.len
        &&& forall|i: int| 0 <= i < self.len ==> #[trigger] self.values@[i] < self.modulus
    }

    /// The vector of `vector`'s entries reduced modulo `modulus`.
    pub fn new(vector: Vec<u64>, modulus: u64) -> (r: Vector)
        requires
            valid_modulus(modulus as int),
        ensures
            r.wf(),
            r.modulus == modulus,
            r.len == vector@.len(),
            forall|i: int| 0 <= i < r.len ==> #[trigger] r@[i] == (vector@[i] as int) % (modulus as int),
    {
        let mut v: Vec<u64> = Vec::new();
        let mut i: usize = 0;
        while i < vector.len()
            invariant
                valid_modulus(modulus as int),
                i <= vector@.len(),
                v@.len() == i,
                forall|j: int| 0 <= j < i ==> #[trigger] v@[j] < modulus,
                forall|j: int| 0 <= j < i ==> #[trigger] v@[j] as int == (vector@[j] as int) % (modulus as int),
            decreases vector@.len() - i,
        {
            v.push(vector[i] % modulus);
            i = i + 1;
        }
        let len = v.len();
        Vector { values: v, len, modulus }
    }

    /// The vector as a one-row matrix.
    pub fn transpose(&self) -> (r: Matrix)
        requires
            self.wf(),
        ensures
            r.wf(),
            r.rows == 1 && r.columns == self.len && r.modulus == self.modulus,
            forall|c: int| 0 <= c < self.len ==> #[trigger] r@[c][0] == self@[c],
    {
        let mut container: Vec<Vec<u64>> = Vec::new();
        let mut i: usize = 0;
        while i < self.len
            invariant
                self.wf(),
                i <= self.len,
                container@.len() == i,
                forall|j: int| 0 <= j < i ==> (#[trigger] container@[j])@ == seq![self.values@[j]],
            decreases self.len - i,
        {
            container.push(vec![self.values[i]]);
            i = i + 1;
        }
        let m = Matrix { values: container, rows: 1, columns: self.len, modulus: self.modulus };
        proof {
            assert forall|c: int| 0 <= c < self.len implies #[trigger] m@[c][0] == self@[c] by {
                assert(m@[c] == ints(m.values@[c]@));
            }
            assert forall|c: int, k: int| 0 <= c < m.columns && 0 <= k < m.rows
                implies #[trigger] m.values@[c]@[k] < m.modulus by {
                assert(k == 0);
            }
        }
        m
    }

    fn weighted_sum(&self, w: u8) -> (r: u64)
        requires
            self.wf(),
            w == 1 || w == 2,
        ensures
            r as int == power_sum(self@, self.len as nat, w as nat) % (self.modulus as int),
            r < self.modulus,
    {
        let q = self.modulus;
        let mut acc: u64 = 0;
        let mut i: usize = 0;
        proof { lemma_small_mod(0, q as nat); }
        while i < self.len
            invariant
                self.wf(),
                q == self.modulus,
                w == 1 || w == 2,
                i <= self.len,
                acc < q,
                acc as int == power_sum(self@, i as nat, w as nat) % (q as int),
            decreases self.len - i,
        {
            let x = self.values[i];
            let t: u64 = if w == 2 { mul_mod(x, x, q) } else { x };
            proof {
                let term: int = if w == 2 { x as int * x as int } else { x as int };
                assert(self@[i as int] == x as int);
                lemma_mod_bound(term, q as int);
                if w != 2 { lemma_small_mod(x as nat, q as nat); }
                lemma_add_mod_noop(power_sum(self@, i as nat, w as nat), term, q as int);
                lemma_small_mod(acc as nat, q as nat);
                lemma_small_mod(t as nat, q as nat);
            }
            acc = add_mod(acc, t, q);
            i = i + 1;
        }
        acc
    }

    /// The sum of the entries modulo `q`.
    pub fn l_1_norm(&self) -> (r: u64)
        requires
            self.wf(),
        ensures
            r as int == power_sum(self@, self.len as nat, 1) % (self.modulus as int),
    {
        self.weighted_sum(1)
    }

    /// The sum of the squared entries modulo `q`.
    pub fn l_2_norm(&self) -> (r: u64)
        requires
            self.wf(),
        ensures
            r as int == power_sum(self@, self.len as nat, 2) % (self.modulus as int),
    {
        self.weighted_sum(2)
    }

    /// The largest entry (by its lift), zero for the empty vector.
    pub fn l_inf_norm(&self) -> (r: u64)
        requires
            self.wf(),
        ensures
            forall|i: int| 0 <= i < self.len ==> #[trigger] self.values@[i] <= r,
            r == 0 || exists|i: int| 0 <= i < self.len && #[trigger] self.values@[i] == r,
    {
        let mut max: u64 = 0;
        let mut i: usize = 0;
        while i < self.len
            invariant
                self.wf(),
                i <= self.len,
                forall|j: int| 0 <= j < i ==> #[trigger] self.values@[j] <= max,
                max == 0 || exists|j: int| 0 <= j < i && #[trigger] self.values@[j] == max,
            decreases self.len - i,
        {
            if self.values[i] > max {
                max = self.values[i];
            }
            i = i + 1;
        }
        max
    }

    /// `Σ a_i · b_i` modulo `q`. `LengthMismatch` when the lengths differ,
    /// `DomainMismatch` when the moduli do.
    pub fn element_wise_product(&self, m: &Vector) -> (r: Result<u64, AlgebraError>)
        requires
            self.wf(),
            m.wf(),
        ensures
            self.len != m.len ==> r == Err::<u64, AlgebraError>(AlgebraError::LengthMismatch),
            self.len == m.len && self.modulus != m.modulus ==> r == Err::<u64, AlgebraError>(AlgebraError::DomainMismatch),
            r is Ok <==> (self.len == m.len && self.modulus == m.modulus),
            r matches Ok(x) ==> x as int == dot(self@, m@, self.len as nat) % (self.modulus as int),
    {
        if self.len != m.len {
            return Err(AlgebraError::LengthMismatch);
        }
        if self.modulus != m.modulus {
            return Err(AlgebraError::DomainMismatch);
        }
        let q = self.modulus;
        let mut acc: u64 = 0;
        let mut i: usize = 0;
        proof { lemma_small_mod(0, q as nat); }
        while i < self.len
            invariant
                self.wf(),
                m.wf(),
                m.len == self.len,
                q == self.modulus,
                q == m.modulus,
                i <= self.len,
                acc < q,
                acc as int == dot(self@, m@, i as nat) % (q as int),
            decreases self.len - i,
        {
            let t = mul_mod(self.values[i], m.values[i], q);
            proof {
                assert(self@[i as int] == self.values@[i as int] as int);
                assert(m@[i as int] == m.values@[i as int] as int);
                lemma_add_mod_noop(dot(self@, m@, i as nat), self@[i as int] * m@[i as int], q as int);
                lemma_small_mod(acc as nat, q as nat);
                lemma_small_mod(t as nat, q as nat);
            }
            acc = add_mod(acc, t, q);
            i = i + 1;
        }
        Ok(acc)
    }

    fn entrywise(&self, m: &Vector, op: u8) -> (r: Vector)
        requires
            self.wf(),
            m.wf(),
            m.len == self.len && m.modulus == self.modulus,
        ensures
            r.wf(),
            r.len == self.len && r.modulus == self.modulus,
            forall|i: int| 0 <= i < self.len ==> #[trigger] r@[i]
                == (if op == 0 { self@[i] + m@[i] } else { self@[i] - m@[i] }) % (self.modulus as int),
    {
        let q = self.modulus;
        let mut v: Vec<u64> = Vec::new();
        let mut i: usize = 0;
        while i < self.len
            invariant
                self.wf(),
                m.wf(),
                m.len == self.len && m.modulus == self.modulus,
                q == self.modulus,
                i <= self.len,
                v@.len() == i,
                forall|j: int| 0 <= j < i ==> #[trigger] v@[j] < q,
                forall|j: int| 0 <= j < i ==> #[trigger] v@[j] as int
                    == (if op == 0 { self@[j] + m@[j] } else { self@[j] - m@[j] }) % (q as int),
            decreases self.len - i,
        {
            proof {
                assert(self@[i as int] == self.values@[i as int] as int);
                assert(m@[i as int] == m.values@[i as int] as int);
            }
            let x = if op == 0 { add_mod(self.values[i], m.values[i], q) } else { crate::zq::sub_mod(self.values[i], m.values[i], q) };
            v.push(x);
            i = i + 1;
        }
        let r = Vector { values: v, len: self.len, modulus: q };
        proof {
            assert forall|i: int| 0 <= i < self.len implies #[trigger] r@[i]
                == (if op == 0 { self@[i] + m@[i] } else { self@[i] - m@[i] }) % (q as int) by {
                assert(r@[i] == v@[i] as int);
            }
        }
        r
    }

    /// Entry-wise sum. `LengthMismatch` when the lengths differ, `DomainMismatch` when the moduli do.
    pub fn add(&self, m: &Vector) -> (r: Result<Vector, AlgebraError>)
        requires
            self.wf(),
            m.wf(),
        ensures
            r is Ok <==> (self.len == m.len && self.modulus == m.modulus),
            self.len != m.len ==> r == Err::<Vector, AlgebraError>(AlgebraError::LengthMismatch),
            r matches Err(e) ==> e == AlgebraError::LengthMismatch || e == AlgebraError::DomainMismatch,
            r matches Ok(v) ==> v.wf() && v.len == self.len && v.modulus == self.modulus
                && forall|i: int| 0 <= i < self.len ==> #[trigger] v@[i] == (self@[i] + m@[i]) % (self.modulus as int),
    {
        if self.len != m.len {
            return Err(AlgebraError::LengthMismatch);
        }
        if self.modulus != m.modulus {
            return Err(AlgebraError::DomainMismatch);
        }
        Ok(self.entrywise(m, 0))
    }

    /// Entry-wise difference. `LengthMismatch` when the lengths differ, `DomainMismatch` when the moduli do.
    pub fn sub(&self, m: &Vector) -> (r: Result<Vector, AlgebraError>)
        requires
            self.wf(),
            m.wf(),
        ensures
            r is Ok <==> (self.len == m.len && self.modulus == m.modulus),
            self.len != m.len ==> r == Err::<Vector, AlgebraError>(AlgebraError::LengthMismatch),
            r matches Err(e) ==> e == AlgebraError::LengthMismatch || e == AlgebraError::DomainMismatch,
            r matches Ok(v) ==> v.wf() && v.len == self.len && v.modulus == self.modulus
                && forall|i: int| 0 <= i < self.len ==> #[trigger] v@[i] == (self@[i] - m@[i]) % (self.modulus as int),
    {
        if self.len != m.len {
            return Err(AlgebraError::LengthMismatch);
        }
        if self.modulus != m.modulus {
            return Err(AlgebraError::DomainMismatch);
        }
        Ok(self.entrywise(m, 1))
    }
}

} // verus!
