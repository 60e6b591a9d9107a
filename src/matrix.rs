use vstd::prelude::*;
use vstd::arithmetic::div_mod::{lemma_add_mod_noop, lemma_sub_mod_noop, lemma_mul_mod_noop_general,
    lemma_small_mod, lemma_mod_bound};
use crate::error::AlgebraError;
use crate::upoly::ints;
use crate::zq::{add_mod, inv_mod, mul_mod, sub_mod, valid_modulus, coprime, lemma_mod_mod_eq};

verus! {

/// The entries of a column-major matrix as integers: `m[c][r]` is row `r`, column `c`.
pub open spec fn entries(values: Seq<Vec<u64>>) -> Seq<Seq<int>> {
    values.map_values(|col: Vec<u64>| ints(col@))
}

/// `m` without row `i` and column `j`.
pub open spec fn minor_of(m: Seq<Seq<int>>, i: int, j: int) -> Seq<Seq<int>> {
    Seq::new((m.len() - 1) as nat, |c: int| {
        let col = m[if c < j { c } else { c + 1 }];
        Seq::new((col.len() - 1) as nat, |r: int| col[if r < i { r } else { r + 1 }])
    })
}

/// `(-1)^k`.
pub open spec fn sign(k: int) -> int {
    if k % 2 == 0 {
        1
    } else {
        -1
    }
}

/// The determinant of a square column-major matrix, by cofactor expansion along row 0.
pub open spec fn det(m: Seq<Seq<int>>) -> int
    decreases m.len(), 1int, 0int,
{
    if m.len() == 0 {
        1
    } else {
        det_sum(m, m.len())
    }
}

/// The first `k` terms of the cofactor expansion along row 0.
pub open spec fn det_sum(m: Seq<Seq<int>>, k: nat) -> int
    decreases m.len(), 0int, k,
{
    if k == 0 || m.len() == 0 {
        0
    } else {
        det_sum(m, (k - 1) as nat) + sign(k - 1) * m[k - 1][0] * det(minor_of(m, 0, k - 1))
    }
}

/// `Σ_{t < m} a(r, t) · b(t, c)` for column-major `a` and `b`.
pub open spec fn row_col(a: Seq<Seq<int>>, b: Seq<Seq<int>>, r: int, c: int, m: nat) -> int
    decreases m,
{
    if m == 0 {
        0
    } else {
        row_col(a, b, r, c, (m - 1) as nat) + a[m - 1][r] * b[c][m - 1]
    }
}

/// A dense matrix of residues modulo `modulus`, stored column by column:
/// `values[c][r]` is the entry in row `r`, column `c`.
#[derive(Debug, Clone)]
pub struct Matrix {
    pub values: Vec<Vec<u64>>,
    pub rows: usize,
    pub columns: usize,
    pub modulus: u64,
}

impl Matrix {
    pub open spec fn view(&self) -> Seq<Seq<int>> {
        entries(self.values@)
    }

    pub open spec fn wf(&self) -> bool {
        &&& valid_modulus(self.modulus as int)
        &&& self.values@.len() == self.columns
        &&& forall|c: int| 0 <= c < self.columns ==> (#[trigger] self.values@[c])@.len() == self.rows
        &&& forall|c: int, r: int| 0 <= c < self.columns && 0 <= r < self.rows
            ==> #[trigger] self.values@[c]@[r] < self.modulus
    }

    /// A `rows × columns` matrix from its columns, entries reduced modulo
    /// `modulus`. `LengthMismatch` when the shape is not as stated,
    /// `BadParameters` when the modulus is out of range.
    pub fn new(values: Vec<Vec<u64>>, rows: usize, columns: usize, modulus: u64) -> (r: Result<Matrix, AlgebraError>)
        ensures
            !valid_modulus(modulus as int) ==> r == Err::<Matrix, AlgebraError>(AlgebraError::BadParameters),
            r is Ok <==> (valid_modulus(modulus as int) && values@.len() == columns
                && forall|c: int| 0 <= c < columns ==> (#[trigger] values@[c])@.len() == rows),
            valid_modulus(modulus as int) && r is Err ==> r == Err::<Matrix, AlgebraError>(AlgebraError::LengthMismatch),
            r matches Ok(m) ==> m.wf() && m.rows == rows && m.columns == columns && m.modulus == modulus
                && forall|c: int, k: int| 0 <= c < columns && 0 <= k < rows
                    ==> #[trigger] m@[c][k] == entries(values@)[c][k] % (modulus as int),
    {
        if modulus == 0 || modulus >= crate::zq::MAX_MODULUS {
            return Err(AlgebraError::BadParameters);
        }
        if values.len() != columns {
            return Err(AlgebraError::LengthMismatch);
        }
        let mut out: Vec<Vec<u64>> = Vec::new();
        let mut c: usize = 0;
        while c < columns
            invariant
                valid_modulus(modulus as int),
                values@.len() == columns,
                c <= columns,
                out@.len() == c,
                forall|j: int| 0 <= j < c ==> (#[trigger] values@[j])@.len() == rows,
                forall|j: int| 0 <= j < c ==> (#[trigger] out@[j])@.len() == rows,
                forall|j: int, k: int| 0 <= j < c && 0 <= k < rows ==> #[trigger] out@[j]@[k] < modulus,
                forall|j: int, k: int| 0 <= j < c && 0 <= k < rows
                    ==> #[trigger] out@[j]@[k] as int == (values@[j]@[k] as int) % (modulus as int),
            decreases columns - c,
        {
            if values[c].len() != rows {
                return Err(AlgebraError::LengthMismatch);
            }
            let mut col: Vec<u64> = Vec::new();
            let mut k: usize = 0;
            while k < rows
                invariant
                    valid_modulus(modulus as int),
                    c < columns,
                    values@.len() == columns,
                    values@[c as int]@.len() == rows,
                    k <= rows,
                    col@.len() == k,
                    forall|t: int| 0 <= t < k ==> #[trigger] col@[t] < modulus,
                    forall|t: int| 0 <= t < k ==> #[trigger] col@[t] as int == (values@[c as int]@[t] as int) % (modulus as int),
                decreases rows - k,
            {
                col.push(values[c][k] % modulus);
                k = k + 1;
            }
            out.push(col);
            c = c + 1;
        }
        let m = Matrix { values: out, rows, columns, modulus };
        proof {
            assert forall|c: int, k: int| 0 <= c < columns && 0 <= k < rows
                implies #[trigger] m@[c][k] == entries(values@)[c][k] % (modulus as int) by {
                assert(m@[c] == ints(m.values@[c]@));
                assert(entries(values@)[c] == ints(values@[c]@));
            }
        }
        Ok(m)
    }

    pub fn get_dimension(&self) -> (r: (usize, usize))
        ensures
            r == (self.rows, self.columns),
    {
        (self.rows, self.columns)
    }

    /// The `rows × columns` zero matrix.
    pub fn zero_matrix(rows: usize, columns: usize, modulus: u64) -> (r: Matrix)
        requires
            valid_modulus(modulus as int),
        ensures
            r.wf(),
            r.rows == rows && r.columns == columns && r.modulus == modulus,
            forall|c: int, k: int| 0 <= c < columns && 0 <= k < rows ==> #[trigger] r@[c][k] == 0,
    {
        Self::filled(rows, columns, modulus, false)
    }

    /// The `dim × dim` identity matrix.
    pub fn identity_matrix(dim: usize, modulus: u64) -> (r: Matrix)
        requires
            valid_modulus(modulus as int),
        ensures
            r.wf(),
            r.rows == dim && r.columns == dim && r.modulus == modulus,
            forall|c: int, k: int| 0 <= c < dim && 0 <= k < dim
                ==> #[trigger] r@[c][k] == if c == k { 1int % (modulus as int) } else { 0 },
    {
        Self::filled(dim, dim, modulus, true)
    }

    fn filled(rows: usize, columns: usize, modulus: u64, diagonal: bool) -> (r: Matrix)
        requires
            valid_modulus(modulus as int),
        ensures
            r.wf(),
            r.rows == rows && r.columns == columns && r.modulus == modulus,
            forall|c: int, k: int| 0 <= c < columns && 0 <= k < rows
                ==> #[trigger] r@[c][k] == if diagonal && c == k { 1int % (modulus as int) } else { 0 },
    {
        let mut out: Vec<Vec<u64>> = Vec::new();
        let mut c: usize = 0;
        let one: u64 = 1 % modulus;
        while c < columns
            invariant
                valid_modulus(modulus as int),
                one as int == 1int % (modulus as int),
                c <= columns,
                out@.len() == c,
                forall|j: int| 0 <= j < c ==> (#[trigger] out@[j])@.len() == rows,
                forall|j: int, k: int| 0 <= j < c && 0 <= k < rows ==> #[trigger] out@[j]@[k] < modulus,
                forall|j: int, k: int| 0 <= j < c && 0 <= k < rows
                    ==> #[trigger] out@[j]@[k] as int == if diagonal && j == k { 1int % (modulus as int) } else { 0 },
            decreases columns - c,
        {
            let mut col: Vec<u64> = Vec::new();
            let mut k: usize = 0;
            while k < rows
                invariant
                    valid_modulus(modulus as int),
                    one as int == 1int % (modulus as int),
                    k <= rows,
                    col@.len() == k,
                    forall|t: int| 0 <= t < k ==> #[trigger] col@[t] < modulus,
                    forall|t: int| 0 <= t < k ==> #[trigger] col@[t] as int
                        == if diagonal && c == t { 1int % (modulus as int) } else { 0 },
                decreases rows - k,
            {
                col.push(if diagonal && c == k { one } else { 0 });
                k = k + 1;
            }
            out.push(col);
            c = c + 1;
        }
        let m = Matrix { values: out, rows, columns, modulus };
        proof {
            assert forall|c: int, k: int| 0 <= c < columns && 0 <= k < rows
                implies #[trigger] m@[c][k] == if diagonal && c == k { 1int % (modulus as int) } else { 0 } by {
                assert(m@[c] == ints(m.values@[c]@));
            }
        }
        m
    }

    /// The transpose: entry `(r, c)` of the result is entry `(c, r)` of `self`.
    pub fn transpose(&self) -> (r: Matrix)
        requires
            self.wf(),
        ensures
            r.wf(),
            r.rows == self.columns && r.columns == self.rows && r.modulus == self.modulus,
            forall|c: int, k: int| 0 <= c < self.rows && 0 <= k < self.columns ==> #[trigger] r@[c][k] == self@[k][c],
    {
        let mut out: Vec<Vec<u64>> = Vec::new();
        let mut c: usize = 0;
        while c < self.rows
            invariant
                self.wf(),
                c <= self.rows,
                out@.len() == c,
                forall|j: int| 0 <= j < c ==> (#[trigger] out@[j])@.len() == self.columns,
                forall|j: int, k: int| 0 <= j < c && 0 <= k < self.columns
                    ==> #[trigger] out@[j]@[k] == self.values@[k]@[j],
            decreases self.rows - c,
        {
            let mut col: Vec<u64> = Vec::new();
            let mut k: usize = 0;
            while k < self.columns
                invariant
                    self.wf(),
                    c < self.rows,
                    k <= self.columns,
                    col@.len() == k,
                    forall|t: int| 0 <= t < k ==> #[trigger] col@[t] == self.values@[t]@[c as int],
                decreases self.columns - k,
            {
                col.push(self.values[k][c]);
                k = k + 1;
            }
            out.push(col);
            c = c + 1;
        }
        let m = Matrix { values: out, rows: self.columns, columns: self.rows, modulus: self.modulus };
        proof {
            assert forall|c: int, k: int| 0 <= c < self.rows && 0 <= k < self.columns
                implies #[trigger] m@[c][k] == self@[k][c] by {
                assert(m@[c] == ints(m.values@[c]@));
                assert(self@[k] == ints(self.values@[k]@));
            }
            assert forall|c: int, k: int| 0 <= c < m.columns && 0 <= k < m.rows
                implies #[trigger] m.values@[c]@[k] < m.modulus by {
                assert(m.values@[c]@[k] == self.values@[k]@[c]);
            }
        }
        m
    }

    /// Transposes in place.
    pub fn inplace_transpose(&mut self)
        requires
            old(self).wf(),
        ensures
            final(self).wf(),
            final(self).rows == old(self).columns && final(self).columns == old(self).rows,
            final(self).modulus == old(self).modulus,
            forall|c: int, k: int| 0 <= c < old(self).rows && 0 <= k < old(self).columns
                ==> #[trigger] final(self)@[c][k] == old(self)@[k][c],
    {
        let t = self.transpose();
        *self = t;
    }

    /// Inserts `row` as the new first row.
    pub fn prepend_row(&mut self, row: Vec<u64>)
        requires
            old(self).wf(),
            row@.len() == old(self).columns,
            forall|c: int| 0 <= c < row@.len() ==> #[trigger] row@[c] < old(self).modulus,
            old(self).rows < usize::MAX,
        ensures
            final(self).wf(),
            final(self).rows == old(self).rows + 1 && final(self).columns == old(self).columns,
            final(self).modulus == old(self).modulus,
            forall|c: int| 0 <= c < old(self).columns ==> #[trigger] final(self).values@[c]@
                == seq![row@[c]] + old(self).values@[c]@,
    {
        self.insert_row(row, true)
    }

    /// Adds `row` as the new last row.
    pub fn append_row(&mut self, row: Vec<u64>)
        requires
            old(self).wf(),
            row@.len() == old(self).columns,
            forall|c: int| 0 <= c < row@.len() ==> #[trigger] row@[c] < old(self).modulus,
            old(self).rows < usize::MAX,
        ensures
            final(self).wf(),
            final(self).rows == old(self).rows + 1 && final(self).columns == old(self).columns,
            final(self).modulus == old(self).modulus,
            forall|c: int| 0 <= c < old(self).columns ==> #[trigger] final(self).values@[c]@
                == old(self).values@[c]@.push(row@[c]),
    {
        self.insert_row(row, false)
    }

    fn insert_row(&mut self, row: Vec<u64>, front: bool)
        requires
            old(self).wf(),
            row@.len() == old(self).columns,
            forall|c: int| 0 <= c < row@.len() ==> #[trigger] row@[c] < old(self).modulus,
            old(self).rows < usize::MAX,
        ensures
            final(self).wf(),
            final(self).rows == old(self).rows + 1 && final(self).columns == old(self).columns,
            final(self).modulus == old(self).modulus,
            forall|c: int| 0 <= c < old(self).columns ==> #[trigger] final(self).values@[c]@
                == if front { seq![row@[c]] + old(self).values@[c]@ } else { old(self).values@[c]@.push(row@[c]) },
    {
        let ghost before = self.values@;
        let mut out: Vec<Vec<u64>> = Vec::new();
        let mut c: usize = 0;
        while c < self.columns
            invariant
                self.wf(),
                self.values@ == before,
                row@.len() == self.columns,
                c <= self.columns,
                out@.len() == c,
                forall|j: int| 0 <= j < c ==> (#[trigger] out@[j])@
                    == if front { seq![row@[j]] + before[j]@ } else { before[j]@.push(row@[j]) },
            decreases self.columns - c,
        {
            let mut col: Vec<u64> = Vec::new();
            if front {
                col.push(row[c]);
            }
            let mut k: usize = 0;
            while k < self.values[c].len()
                invariant
                    self.wf(),
                    self.values@ == before,
                    row@.len() == self.columns,
                    c < self.columns,
                    k <= before[c as int]@.len(),
                    col@ == (if front { seq![row@[c as int]] } else { Seq::<u64>::empty() }) + before[c as int]@.subrange(0, k as int),
                decreases before[c as int]@.len() - k,
            {
                col.push(self.values[c][k]);
                k = k + 1;
                assert(col@ =~= (if front { seq![row@[c as int]] } else { Seq::<u64>::empty() }) + before[c as int]@.subrange(0, k as int));
            }
            if !front {
                col.push(row[c]);
            }
            proof {
                assert(before[c as int]@.subrange(0, before[c as int]@.len() as int) =~= before[c as int]@);
                assert(col@ =~= if front { seq![row@[c as int]] + before[c as int]@ } else { before[c as int]@.push(row@[c as int]) });
            }
            out.push(col);
            c = c + 1;
        }
        self.values = out;
        self.rows = self.rows + 1;
        proof {
            assert forall|c: int, k: int| 0 <= c < self.columns && 0 <= k < self.rows
                implies #[trigger] self.values@[c]@[k] < self.modulus by {
                if front {
                    if k > 0 {
                        assert(self.values@[c]@[k] == before[c]@[k - 1]);
                    }
                } else {
                    if k < self.rows - 1 {
                        assert(self.values@[c]@[k] == before[c]@[k]);
                    }
                }
            }
        }
    }

    /// Inserts `column` as the new first column.
    pub fn prepend_column(&mut self, column: Vec<u64>)
        requires
            old(self).wf(),
            column@.len() == old(self).rows,
            forall|k: int| 0 <= k < column@.len() ==> #[trigger] column@[k] < old(self).modulus,
            old(self).columns < usize::MAX,
        ensures
            final(self).wf(),
            final(self).rows == old(self).rows && final(self).columns == old(self).columns + 1,
            final(self).modulus == old(self).modulus,
            final(self).values@ == seq![column].add(old(self).values@),
    {
        self.values.insert(0, column);
        self.columns = self.columns + 1;
        proof {
            assert(self.values@ =~= seq![column].add(old(self).values@));
            assert forall|c: int| 0 <= c < self.columns implies (#[trigger] self.values@[c])@.len() == self.rows by {
                if c > 0 { assert(self.values@[c] == old(self).values@[c - 1]); }
            }
            assert forall|c: int, k: int| 0 <= c < self.columns && 0 <= k < self.rows
                implies #[trigger] self.values@[c]@[k] < self.modulus by {
                if c > 0 { assert(self.values@[c] == old(self).values@[c - 1]); }
            }
        }
    }

    /// Adds `column` as the new last column.
    pub fn append_column(&mut self, column: Vec<u64>)
        requires
            old(self).wf(),
            column@.len() == old(self).rows,
            forall|k: int| 0 <= k < column@.len() ==> #[trigger] column@[k] < old(self).modulus,
            old(self).columns < usize::MAX,
        ensures
            final(self).wf(),
            final(self).rows == old(self).rows && final(self).columns == old(self).columns + 1,
            final(self).modulus == old(self).modulus,
            final(self).values@ == old(self).values@.push(column),
    {
        self.values.push(column);
        self.columns = self.columns + 1;
        proof {
            assert forall|c: int| 0 <= c < self.columns implies (#[trigger] self.values@[c])@.len() == self.rows by {
                if c < self.columns - 1 { assert(self.values@[c] == old(self).values@[c]); }
            }
            assert forall|c: int, k: int| 0 <= c < self.columns && 0 <= k < self.rows
                implies #[trigger] self.values@[c]@[k] < self.modulus by {
                if c < self.columns - 1 { assert(self.values@[c] == old(self).values@[c]); }
            }
        }
    }

    /// Column `index` as a vector.
    pub fn get_ith_vector(&self, index: usize) -> (r: crate::vector::Vector)
        requires
            self.wf(),
            index < self.columns,
        ensures
            r.wf(),
            r.modulus == self.modulus,
            r.values@ == self.values@[index as int]@,
    {
        let mut v: Vec<u64> = Vec::new();
        let mut k: usize = 0;
        while k < self.rows
            invariant
                self.wf(),
                index < self.columns,
                k <= self.rows,
                v@ == self.values@[index as int]@.subrange(0, k as int),
            decreases self.rows - k,
        {
            v.push(self.values[index][k]);
            k = k + 1;
            assert(v@ =~= self.values@[index as int]@.subrange(0, k as int));
        }
        assert(self.values@[index as int]@.subrange(0, self.rows as int) =~= self.values@[index as int]@);
        let len = v.len();
        crate::vector::Vector { values: v, len, modulus: self.modulus }
    }

    /// The minor: `self` without row `i` and column `j`.
    pub fn get_minor_matrix(&self, i: usize, j: usize) -> (r: Matrix)
        requires
            self.wf(),
            i < self.rows,
            j < self.columns,
        ensures
            r.wf(),
            r.rows == self.rows - 1 && r.columns == self.columns - 1 && r.modulus == self.modulus,
            r@ == minor_of(self@, i as int, j as int),
    {
        let mut out: Vec<Vec<u64>> = Vec::new();
        let mut c: usize = 0;
        while c + 1 < self.columns
            invariant
                self.wf(),
                i < self.rows,
                j < self.columns,
                c + 1 <= self.columns,
                out@.len() == c,
                forall|t: int| 0 <= t < c ==> (#[trigger] out@[t])@.len() == self.rows - 1,
                forall|t: int, k: int| 0 <= t < c && 0 <= k < self.rows - 1 ==> #[trigger] out@[t]@[k]
                    == self.values@[if t < j { t } else { t + 1 }]@[if k < i { k } else { k + 1 }],
            decreases self.columns - c,
        {
            let src = if c < j { c } else { c + 1 };
            let mut col: Vec<u64> = Vec::new();
            let mut k: usize = 0;
            while k + 1 < self.rows
                invariant
                    self.wf(),
                    i < self.rows,
                    src < self.columns,
                    k + 1 <= self.rows,
                    col@.len() == k,
                    forall|t: int| 0 <= t < k ==> #[trigger] col@[t]
                        == self.values@[src as int]@[if t < i { t } else { t + 1 }],
                decreases self.rows - k,
            {
                let r = if k < i { k } else { k + 1 };
                col.push(self.values[src][r]);
                k = k + 1;
            }
            out.push(col);
            c = c + 1;
        }
        let m = Matrix { values: out, rows: self.rows - 1, columns: self.columns - 1, modulus: self.modulus };
        proof {
            let mo = minor_of(self@, i as int, j as int);
            assert forall|c: int| 0 <= c < m.columns implies #[trigger] m@[c] == mo[c] by {
                let cc = if c < j { c } else { c + 1 };
                assert(self@[cc] == ints(self.values@[cc]@));
                assert(m@[c] == ints(m.values@[c]@));
                assert(m@[c] =~= mo[c]);
            }
            assert(m@ =~= mo);
            assert forall|c: int, k: int| 0 <= c < m.columns && 0 <= k < m.rows
                implies #[trigger] m.values@[c]@[k] < m.modulus by {
                let cc = if c < j { c } else { c + 1 };
                let kk = if k < i { k } else { k + 1 };
                assert(m.values@[c]@[k] == self.values@[cc]@[kk]);
            }
        }
        m
    }

    /// The determinant modulo `q`, by cofactor expansion along the first row.
    #[verifier::spinoff_prover]
    pub fn determinant(&self) -> (r: u64)
        requires
            self.wf(),
            self.rows == self.columns,
        ensures
            r as int == det(self@) % (self.modulus as int),
            r < self.modulus,
        decreases self.columns,
    {
        let q = self.modulus;
        let n = self.columns;
        if n == 0 {
            proof { lemma_mod_bound(1, q as int); }
            return 1 % q;
        }
        let mut acc: u64 = 0;
        let mut c: usize = 0;
        proof { lemma_small_mod(0, q as nat); }
        while c < n
            invariant
                self.wf(),
                self.rows == self.columns,
                q == self.modulus,
                n == self.columns,
                n >= 1,
                c <= n,
                acc < q,
                acc as int == det_sum(self@, c as nat) % (q as int),
            decreases n - c,
        {
            let minor = self.get_minor_matrix(0, c);
            let d = minor.determinant();
            let e = self.values[c][0];
            let t = mul_mod(e, d, q);
            let ghost big = self@[c as int][0] * det(minor_of(self@, 0, c as int));
            proof {
                assert(self@[c as int] == ints(self.values@[c as int]@));
                assert(self@[c as int][0] == e as int);
                lemma_mul_mod_noop_general(e as int, det(minor@), q as int);
                lemma_small_mod(acc as nat, q as nat);
                lemma_small_mod(t as nat, q as nat);
                assert(det_sum(self@, (c + 1) as nat) == det_sum(self@, c as nat) + sign(c as int) * self@[c as int][0]
                    * det(minor_of(self@, 0, c as int)));
            }
            if c % 2 == 0 {
                proof {
                    assert(sign(c as int) == 1);
                    assert(sign(c as int) * self@[c as int][0] * det(minor_of(self@, 0, c as int)) == big) by (nonlinear_arith)
                        requires sign(c as int) == 1, big == self@[c as int][0] * det(minor_of(self@, 0, c as int));
                    lemma_add_mod_noop(det_sum(self@, c as nat), big, q as int);
                }
                acc = add_mod(acc, t, q);
            } else {
                proof {
                    assert(sign(c as int) == -1);
                    assert(sign(c as int) * self@[c as int][0] * det(minor_of(self@, 0, c as int)) == -big) by (nonlinear_arith)
                        requires sign(c as int) == -1, big == self@[c as int][0] * det(minor_of(self@, 0, c as int));
                    lemma_sub_mod_noop(det_sum(self@, c as nat), big, q as int);
                }
                acc = sub_mod(acc, t, q);
            }
            c = c + 1;
        }
        acc
    }

    /// The inverse modulo `q`: the adjugate divided by the determinant.
    /// `NotInvertible` exactly when the determinant is not a unit modulo `q`.
    #[verifier::spinoff_prover]
    pub fn inverse(&self) -> (r: Result<Matrix, AlgebraError>)
        requires
            self.wf(),
            self.rows == self.columns,
        ensures
            r is Ok <==> coprime(det(self@), self.modulus as int),
            r matches Err(e) ==> e == AlgebraError::NotInvertible,
            r matches Ok(m) ==> m.wf() && m.rows == self.rows && m.columns == self.columns && m.modulus == self.modulus,
            r matches Ok(m) ==> forall|c: int, k: int| 0 <= c < self.columns && 0 <= k < self.rows
                ==> #[trigger] (m@[c][k] * det(self@)) % (self.modulus as int)
                    == (sign(k + c) * det(minor_of(self@, c, k))) % (self.modulus as int),
    {
        let q = self.modulus;
        let n = self.columns;
        let d = self.determinant();
        let dinv = match inv_mod(d, q) {
            None => {
                proof { lemma_mod_mod_eq(det(self@), q as int); }
                return Err(AlgebraError::NotInvertible);
            },
            Some(y) => y,
        };
        proof { lemma_mod_mod_eq(det(self@), q as int); }
        let mut out: Vec<Vec<u64>> = Vec::new();
        let mut c: usize = 0;
        while c < n
            invariant
                self.wf(),
                self.rows == self.columns,
                q == self.modulus,
                n == self.columns,
                d as int == det(self@) % (q as int),
                dinv < q,
                (d * dinv) % (q as int) == 1int % (q as int),
                c <= n,
                out@.len() == c,
                forall|j: int| 0 <= j < c ==> (#[trigger] out@[j])@.len() == n,
                forall|j: int, k: int| 0 <= j < c && 0 <= k < n ==> #[trigger] out@[j]@[k] < q,
                forall|j: int, k: int| 0 <= j < c && 0 <= k < n ==> #[trigger] (out@[j]@[k] * det(self@)) % (q as int)
                    == (sign(k + j) * det(minor_of(self@, j, k))) % (q as int),
            decreases n - c,
        {
            let mut col: Vec<u64> = Vec::new();
            let mut k: usize = 0;
            while k < n
                invariant
                    self.wf(),
                    self.rows == self.columns,
                    q == self.modulus,
                    n == self.columns,
                    c < n,
                    d as int == det(self@) % (q as int),
                    dinv < q,
                    (d * dinv) % (q as int) == 1int % (q as int),
                    k <= n,
                    col@.len() == k,
                    forall|t: int| 0 <= t < k ==> #[trigger] col@[t] < q,
                    forall|t: int| 0 <= t < k ==> #[trigger] (col@[t] * det(self@)) % (q as int)
                        == (sign(t + c) * det(minor_of(self@, c as int, t))) % (q as int),
                decreases n - k,
            {
                let minor = self.get_minor_matrix(c, k);
                let dm = minor.determinant();
                let even = (k % 2 + c % 2) % 2 == 0;
                proof { lemma_add_mod_noop(k as int, c as int, 2); }
                let cof: u64 = if even { dm } else { sub_mod(0, dm, q) };
                let ghost big = sign((k + c) as int) * det(minor_of(self@, c as int, k as int));
                proof {
                    let dmi = det(minor_of(self@, c as int, k as int));
                    if even {
                        assert(big == dmi) by (nonlinear_arith) requires big == sign((k + c) as int) * dmi, sign((k + c) as int) == 1;
                    } else {
                        assert(big == -dmi) by (nonlinear_arith) requires big == sign((k + c) as int) * dmi, sign((k + c) as int) == -1;
                        lemma_sub_mod_noop(0, dmi, q as int);
                        lemma_small_mod(0, q as nat);
                    }
                    assert(cof as int == big % (q as int));
                }
                let e = mul_mod(cof, dinv, q);
                proof {
                    lemma_scale_back(e as int, cof as int, dinv as int, det(self@), d as int, big, q as int);
                }
                col.push(e);
                k = k + 1;
            }
            out.push(col);
            c = c + 1;
        }
        let m = Matrix { values: out, rows: n, columns: n, modulus: q };
        proof {
            assert forall|c: int, k: int| 0 <= c < n && 0 <= k < n
                implies #[trigger] (m@[c][k] * det(self@)) % (q as int) == (sign(k + c) * det(minor_of(self@, c, k))) % (q as int) by {
                assert(m@[c] == ints(m.values@[c]@));
                assert(m@[c][k] == m.values@[c]@[k] as int);
            }
        }
        Ok(m)
    }

    /// Entry-wise sum (`op == 0`) or difference (`op == 1`) modulo `q`.
    fn entrywise(&self, rhs: &Matrix, op: u8) -> (r: Matrix)
        requires
            self.wf(),
            rhs.wf(),
            rhs.rows == self.rows && rhs.columns == self.columns && rhs.modulus == self.modulus,
        ensures
            r.wf(),
            r.rows == self.rows && r.columns == self.columns && r.modulus == self.modulus,
            forall|c: int, k: int| 0 <= c < self.columns && 0 <= k < self.rows ==> #[trigger] r@[c][k]
                == (if op == 0 { self@[c][k] + rhs@[c][k] } else { self@[c][k] - rhs@[c][k] }) % (self.modulus as int),
    {
        let q = self.modulus;
        let mut out: Vec<Vec<u64>> = Vec::new();
        let mut c: usize = 0;
        while c < self.columns
            invariant
                self.wf(),
                rhs.wf(),
                rhs.rows == self.rows && rhs.columns == self.columns && rhs.modulus == self.modulus,
                q == self.modulus,
                c <= self.columns,
                out@.len() == c,
                forall|j: int| 0 <= j < c ==> (#[trigger] out@[j])@.len() == self.rows,
                forall|j: int, k: int| 0 <= j < c && 0 <= k < self.rows ==> #[trigger] out@[j]@[k] < q,
                forall|j: int, k: int| 0 <= j < c && 0 <= k < self.rows ==> #[trigger] out@[j]@[k] as int
                    == (if op == 0 { self.values@[j]@[k] + rhs.values@[j]@[k] }
                        else { self.values@[j]@[k] - rhs.values@[j]@[k] }) % (q as int),
            decreases self.columns - c,
        {
            let mut col: Vec<u64> = Vec::new();
            let mut k: usize = 0;
            while k < self.rows
                invariant
                    self.wf(),
                    rhs.wf(),
                    rhs.rows == self.rows && rhs.columns == self.columns && rhs.modulus == self.modulus,
                    q == self.modulus,
                    c < self.columns,
                    k <= self.rows,
                    col@.len() == k,
                    forall|t: int| 0 <= t < k ==> #[trigger] col@[t] < q,
                    forall|t: int| 0 <= t < k ==> #[trigger] col@[t] as int
                        == (if op == 0 { self.values@[c as int]@[t] + rhs.values@[c as int]@[t] }
                            else { self.values@[c as int]@[t] - rhs.values@[c as int]@[t] }) % (q as int),
                decreases self.rows - k,
            {
                let a = self.values[c][k];
                let b = rhs.values[c][k];
                let v = if op == 0 { add_mod(a, b, q) } else { sub_mod(a, b, q) };
                col.push(v);
                k = k + 1;
            }
            out.push(col);
            c = c + 1;
        }
        let m = Matrix { values: out, rows: self.rows, columns: self.columns, modulus: q };
        proof {
            assert forall|c: int, k: int| 0 <= c < self.columns && 0 <= k < self.rows implies #[trigger] m@[c][k]
                == (if op == 0 { self@[c][k] + rhs@[c][k] } else { self@[c][k] - rhs@[c][k] }) % (q as int) by {
                assert(m@[c] == ints(m.values@[c]@));
                assert(self@[c] == ints(self.values@[c]@));
                assert(rhs@[c] == ints(rhs.values@[c]@));
            }
        }
        m
    }

    /// Entry-wise sum. `LengthMismatch` when the shapes differ, `DomainMismatch` when the moduli do.
    pub fn add(&self, rhs: &Matrix) -> (r: Result<Matrix, AlgebraError>)
        requires
            self.wf(),
            rhs.wf(),
        ensures
            r is Ok <==> (rhs.rows == self.rows && rhs.columns == self.columns && rhs.modulus == self.modulus),
            !(rhs.rows == self.rows && rhs.columns == self.columns) ==> r == Err::<Matrix, AlgebraError>(AlgebraError::LengthMismatch),
            r matches Err(e) ==> e == AlgebraError::LengthMismatch || e == AlgebraError::DomainMismatch,
            r matches Ok(m) ==> m.wf() && m.rows == self.rows && m.columns == self.columns && m.modulus == self.modulus
                && forall|c: int, k: int| 0 <= c < self.columns && 0 <= k < self.rows
                    ==> #[trigger] m@[c][k] == (self@[c][k] + rhs@[c][k]) % (self.modulus as int),
    {
        if rhs.rows != self.rows || rhs.columns != self.columns {
            return Err(AlgebraError::LengthMismatch);
        }
        if rhs.modulus != self.modulus {
            return Err(AlgebraError::DomainMismatch);
        }
        Ok(self.entrywise(rhs, 0))
    }

    /// Entry-wise difference. `LengthMismatch` when the shapes differ, `DomainMismatch` when the moduli do.
    pub fn sub(&self, rhs: &Matrix) -> (r: Result<Matrix, AlgebraError>)
        requires
            self.wf(),
            rhs.wf(),
        ensures
            r is Ok <==> (rhs.rows == self.rows && rhs.columns == self.columns && rhs.modulus == self.modulus),
            !(rhs.rows == self.rows && rhs.columns == self.columns) ==> r == Err::<Matrix, AlgebraError>(AlgebraError::LengthMismatch),
            r matches Err(e) ==> e == AlgebraError::LengthMismatch || e == AlgebraError::DomainMismatch,
            r matches Ok(m) ==> m.wf() && m.rows == self.rows && m.columns == self.columns && m.modulus == self.modulus
                && forall|c: int, k: int| 0 <= c < self.columns && 0 <= k < self.rows
                    ==> #[trigger] m@[c][k] == (self@[c][k] - rhs@[c][k]) % (self.modulus as int),
    {
        if rhs.rows != self.rows || rhs.columns != self.columns {
            return Err(AlgebraError::LengthMismatch);
        }
        if rhs.modulus != self.modulus {
            return Err(AlgebraError::DomainMismatch);
        }
        Ok(self.entrywise(rhs, 1))
    }

    /// The matrix product: entry `(r, c)` is `Σ_k self(r, k) · rhs(k, c)` modulo `q`.
    /// `LengthMismatch` unless `self.columns == rhs.rows`, `DomainMismatch` when the moduli differ.
    pub fn mul(&self, rhs: &Matrix) -> (r: Result<Matrix, AlgebraError>)
        requires
            self.wf(),
            rhs.wf(),
        ensures
            r is Ok <==> (self.columns == rhs.rows && rhs.modulus == self.modulus),
            self.columns != rhs.rows ==> r == Err::<Matrix, AlgebraError>(AlgebraError::LengthMismatch),
            r matches Err(e) ==> e == AlgebraError::LengthMismatch || e == AlgebraError::DomainMismatch,
            r matches Ok(m) ==> m.wf() && m.rows == self.rows && m.columns == rhs.columns && m.modulus == self.modulus
                && forall|c: int, k: int| 0 <= c < rhs.columns && 0 <= k < self.rows
                    ==> #[trigger] m@[c][k] == row_col(self@, rhs@, k, c, self.columns as nat) % (self.modulus as int),
    {
        if self.columns != rhs.rows {
            return Err(AlgebraError::LengthMismatch);
        }
        if rhs.modulus != self.modulus {
            return Err(AlgebraError::DomainMismatch);
        }
        let q = self.modulus;
        let mut out: Vec<Vec<u64>> = Vec::new();
        let mut c: usize = 0;
        while c < rhs.columns
            invariant
                self.wf(),
                rhs.wf(),
                self.columns == rhs.rows,
                q == self.modulus,
                q == rhs.modulus,
                c <= rhs.columns,
                out@.len() == c,
                forall|j: int| 0 <= j < c ==> (#[trigger] out@[j])@.len() == self.rows,
                forall|j: int, k: int| 0 <= j < c && 0 <= k < self.rows ==> #[trigger] out@[j]@[k] < q,
                forall|j: int, k: int| 0 <= j < c && 0 <= k < self.rows ==> #[trigger] out@[j]@[k] as int
                    == row_col(self@, rhs@, k, j, self.columns as nat) % (q as int),
            decreases rhs.columns - c,
        {
            let mut col: Vec<u64> = Vec::new();
            let mut k: usize = 0;
            while k < self.rows
                invariant
                    self.wf(),
                    rhs.wf(),
                    self.columns == rhs.rows,
                    q == self.modulus,
                    q == rhs.modulus,
                    c < rhs.columns,
                    k <= self.rows,
                    col@.len() == k,
                    forall|t: int| 0 <= t < k ==> #[trigger] col@[t] < q,
                    forall|t: int| 0 <= t < k ==> #[trigger] col@[t] as int
                        == row_col(self@, rhs@, t, c as int, self.columns as nat) % (q as int),
                decreases self.rows - k,
            {
                let mut acc: u64 = 0;
                let mut t: usize = 0;
                proof { lemma_small_mod(0, q as nat); }
                while t < self.columns
                    invariant
                        self.wf(),
                        rhs.wf(),
                        self.columns == rhs.rows,
                        q == self.modulus,
                        q == rhs.modulus,
                        c < rhs.columns,
                        k < self.rows,
                        t <= self.columns,
                        acc < q,
                        acc as int == row_col(self@, rhs@, k as int, c as int, t as nat) % (q as int),
                    decreases self.columns - t,
                {
                    let term = mul_mod(self.values[t][k], rhs.values[c][t], q);
                    proof {
                        assert(self@[t as int] == ints(self.values@[t as int]@));
                        assert(rhs@[c as int] == ints(rhs.values@[c as int]@));
                        let x = self@[t as int][k as int] * rhs@[c as int][t as int];
                        lemma_add_mod_noop(row_col(self@, rhs@, k as int, c as int, t as nat), x, q as int);
                        lemma_small_mod(acc as nat, q as nat);
                        lemma_small_mod(term as nat, q as nat);
                    }
                    acc = add_mod(acc, term, q);
                    t = t + 1;
                }
                col.push(acc);
                k = k + 1;
            }
            out.push(col);
            c = c + 1;
        }
        let m = Matrix { values: out, rows: self.rows, columns: rhs.columns, modulus: q };
        proof {
            assert forall|c: int, k: int| 0 <= c < rhs.columns && 0 <= k < self.rows implies #[trigger] m@[c][k]
                == row_col(self@, rhs@, k, c, self.columns as nat) % (q as int) by {
                assert(m@[c] == ints(m.values@[c]@));
            }
        }
        Ok(m)
    }

    /// The matrix–vector product: entry `r` is `Σ_t self(r, t) · v_t` modulo `q`.
    /// `LengthMismatch` unless `v` has `columns` entries, `DomainMismatch`
    /// when the moduli differ.
    pub fn mul_vector(&self, v: &crate::vector::Vector) -> (r: Result<crate::vector::Vector, AlgebraError>)
        requires
            self.wf(),
            v.wf(),
        ensures
            r is Ok <==> (v.len == self.columns && v.modulus == self.modulus),
            v.len != self.columns ==> r == Err::<crate::vector::Vector, AlgebraError>(AlgebraError::LengthMismatch),
            r matches Err(e) ==> e == AlgebraError::LengthMismatch || e == AlgebraError::DomainMismatch,
            r matches Ok(w) ==> w.wf() && w.len == self.rows && w.modulus == self.modulus
                && forall|k: int| 0 <= k < self.rows
                    ==> #[trigger] w@[k] == row_col(self@, seq![v@], k, 0, self.columns as nat) % (self.modulus as int),
    {
        if v.len != self.columns {
            return Err(AlgebraError::LengthMismatch);
        }
        if v.modulus != self.modulus {
            return Err(AlgebraError::DomainMismatch);
        }
        let q = self.modulus;
        let mut out: Vec<u64> = Vec::new();
        let mut k: usize = 0;
        while k < self.rows
            invariant
                self.wf(),
                v.wf(),
                v.len == self.columns,
                q == self.modulus && q == v.modulus,
                k <= self.rows,
                out@.len() == k,
                forall|j: int| 0 <= j < k ==> #[trigger] out@[j] < q,
                forall|j: int| 0 <= j < k ==> #[trigger] out@[j] as int
                    == row_col(self@, seq![v@], j, 0, self.columns as nat) % (q as int),
            decreases self.rows - k,
        {
            let mut acc: u64 = 0;
            let mut t: usize = 0;
            proof { lemma_small_mod(0, q as nat); }
            while t < self.columns
                invariant
                    self.wf(),
                    v.wf(),
                    v.len == self.columns,
                    q == self.modulus && q == v.modulus,
                    k < self.rows,
                    t <= self.columns,
                    acc < q,
                    acc as int == row_col(self@, seq![v@], k as int, 0, t as nat) % (q as int),
                decreases self.columns - t,
            {
                let term = mul_mod(self.values[t][k], v.values[t], q);
                proof {
                    assert(self@[t as int] == ints(self.values@[t as int]@));
                    assert(seq![v@][0] == v@);
                    assert(v@[t as int] == v.values@[t as int] as int);
                    let x = self@[t as int][k as int] * v@[t as int];
                    lemma_add_mod_noop(row_col(self@, seq![v@], k as int, 0, t as nat), x, q as int);
                    lemma_small_mod(acc as nat, q as nat);
                    lemma_small_mod(term as nat, q as nat);
                }
                acc = add_mod(acc, term, q);
                t = t + 1;
            }
            out.push(acc);
            k = k + 1;
        }
        let len = out.len();
        let w = crate::vector::Vector { values: out, len, modulus: q };
        proof {
            assert forall|j: int| 0 <= j < self.rows implies #[trigger] w@[j]
                == row_col(self@, seq![v@], j, 0, self.columns as nat) % (q as int) by {
                assert(w@[j] == w.values@[j] as int);
            }
        }
        Ok(w)
    }
}

/// `e = cof · dinv (mod q)` with `dinv` the inverse of `D` gives `e · D ≡ big`.
proof fn lemma_scale_back(e: int, cof: int, dinv: int, big_d: int, d: int, big: int, q: int)
    requires
        q > 0,
        e == (cof * dinv) % q,
        cof == big % q,
        d == big_d % q,
        (d * dinv) % q == 1int % q,
    ensures
        (e * big_d) % q == big % q,
{
    lemma_mul_mod_noop_general(cof * dinv, big_d, q);
    lemma_mul_mod_noop_general(cof * dinv, d, q);
    assert((cof * dinv) * d == cof * (d * dinv)) by (nonlinear_arith);
    lemma_mul_mod_noop_general(cof, d * dinv, q);
    lemma_mul_mod_noop_general(cof, 1, q);
    lemma_mod_mod_eq(big, q);
}

} // verus!
