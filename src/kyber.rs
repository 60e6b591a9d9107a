use vstd::prelude::*;
use crate::bfv::{neg_conv, neg_conv_split, mod_q, MAX_CIPHERTEXT_MODULUS};
use crate::error::AlgebraError;
use crate::rq::MAX_DEGREE;
use crate::upoly::ints;
use crate::zq::{add_mod, sub_mod, valid_modulus};

verus! {

/// Largest number of bits a coefficient is compressed to.
pub const MAX_COMPRESSION_BITS: u32 = 32;

/// `a / b` rounded to the nearest integer, ties to even (`a ≥ 0`, `b > 0`).
pub open spec fn round_half_even(a: int, b: int) -> int {
    let f = a / b;
    let r = a % b;
    if 2 * r > b {
        f + 1
    } else if 2 * r < b {
        f
    } else if f % 2 == 0 {
        f
    } else {
        f + 1
    }
}

/// `round(2^d / q · x) mod 2^d`, ties to even.
pub open spec fn compress_coef(x: int, q: int, two_d: int) -> int {
    round_half_even(two_d * x, q) % two_d
}

/// `round(q / 2^d · y) mod q`, ties to even.
pub open spec fn decompress_coef(y: int, q: int, two_d: int) -> int {
    round_half_even(q * y, two_d) % q
}

/// `a / b` rounded, ties to even.
fn round_div(a: u128, b: u128) -> (r: u128)
    requires
        b > 0,
        a <= 0x1_0000_0000_0000_0000_0000_0000,
        b <= 0x1_0000_0000_0000_0000,
    ensures
        r as int == round_half_even(a as int, b as int),
{
    let f = a / b;
    let m = a % b;
    proof {
        vstd::arithmetic::div_mod::lemma_div_is_ordered_by_denominator(a as int, 1, b as int);
    }
    if 2 * m > b {
        f + 1
    } else if 2 * m < b {
        f
    } else if f % 2 == 0 {
        f
    } else {
        f + 1
    }
}

fn two_pow(d: u32) -> (r: u64)
    requires
        d <= MAX_COMPRESSION_BITS,
    ensures
        r as int == vstd::arithmetic::power::pow(2, d as nat),
        1 <= r <= 0x1_0000_0000,
{
    let mut r: u64 = 1;
    let mut i: u32 = 0;
    proof {
        vstd::arithmetic::power::lemma_pow0(2);
        reveal_with_fuel(vstd::arithmetic::power::pow, 33);
        assert(vstd::arithmetic::power::pow(2, 32) == 0x1_0000_0000);
    }
    while i < d
        invariant
            i <= d <= MAX_COMPRESSION_BITS,
            r as int == vstd::arithmetic::power::pow(2, i as nat),
            1 <= r,
            vstd::arithmetic::power::pow(2, 32) == 0x1_0000_0000,
        decreases d - i,
    {
        proof {
            crate::rq::lemma_pow_succ(2, i as nat);
            vstd::arithmetic::power::lemma_pow_increases(2, (i + 1) as nat, 32);
        }
        r = 2 * r;
        i = i + 1;
    }
    proof {
        vstd::arithmetic::power::lemma_pow_increases(2, d as nat, 32);
    }
    r
}

/// Every coefficient (a residue modulo `q`) rounded to `d` bits:
/// `round(2^d / q · x) mod 2^d`.
pub fn compress(poly: &Vec<u64>, q: u64, d: u32) -> (r: Vec<u64>)
    requires
        valid_modulus(q as int),
        d <= MAX_COMPRESSION_BITS,
        forall|i: int| 0 <= i < poly@.len() ==> #[trigger] poly@[i] < q,
    ensures
        r@.len() == poly@.len(),
        forall|i: int| 0 <= i < poly@.len() ==> #[trigger] r@[i] as int
            == compress_coef(poly@[i] as int, q as int, vstd::arithmetic::power::pow(2, d as nat)),
{
    let t = two_pow(d);
    let mut out: Vec<u64> = Vec::new();
    let mut i: usize = 0;
    while i < poly.len()
        invariant
            valid_modulus(q as int),
            t as int == vstd::arithmetic::power::pow(2, d as nat),
            1 <= t <= 0x1_0000_0000,
            forall|j: int| 0 <= j < poly@.len() ==> #[trigger] poly@[j] < q,
            i <= poly@.len(),
            out@.len() == i,
            forall|j: int| 0 <= j < i ==> #[trigger] out@[j] as int
                == compress_coef(poly@[j] as int, q as int, t as int),
        decreases poly@.len() - i,
    {
        let x = poly[i];
        assert((t as int) * (x as int) <= 0x1_0000_0000 * 0x8000_0000_0000_0000) by (nonlinear_arith)
            requires t <= 0x1_0000_0000, x < 0x8000_0000_0000_0000;
        let num: u128 = (t as u128) * (x as u128);
        let v: u128 = round_div(num, q as u128) % (t as u128);
        out.push(v as u64);
        i = i + 1;
    }
    out
}

/// Every `d`-bit value `y` mapped back to a residue: `round(q / 2^d · y) mod q`.
pub fn decompress(poly: &Vec<u64>, q: u64, d: u32) -> (r: Vec<u64>)
    requires
        valid_modulus(q as int),
        d <= MAX_COMPRESSION_BITS,
        forall|i: int| 0 <= i < poly@.len() ==> #[trigger] poly@[i] < vstd::arithmetic::power::pow(2, d as nat),
    ensures
        r@.len() == poly@.len(),
        forall|i: int| 0 <= i < poly@.len() ==> #[trigger] r@[i] as int
            == decompress_coef(poly@[i] as int, q as int, vstd::arithmetic::power::pow(2, d as nat)),
        forall|i: int| 0 <= i < poly@.len() ==> #[trigger] r@[i] < q,
{
    let t = two_pow(d);
    let mut out: Vec<u64> = Vec::new();
    let mut i: usize = 0;
    while i < poly.len()
        invariant
            valid_modulus(q as int),
            t as int == vstd::arithmetic::power::pow(2, d as nat),
            1 <= t <= 0x1_0000_0000,
            forall|j: int| 0 <= j < poly@.len() ==> #[trigger] poly@[j] < t,
            i <= poly@.len(),
            out@.len() == i,
            forall|j: int| 0 <= j < i ==> #[trigger] out@[j] as int
                == decompress_coef(poly@[j] as int, q as int, t as int),
            forall|j: int| 0 <= j < i ==> #[trigger] out@[j] < q,
        decreases poly@.len() - i,
    {
        let y = poly[i];
        assert((q as int) * (y as int) <= 0x8000_0000_0000_0000 * 0x1_0000_0000) by (nonlinear_arith)
            requires y < 0x1_0000_0000, q < 0x8000_0000_0000_0000;
        let num: u128 = (q as u128) * (y as u128);
        let v: u128 = round_div(num, t as u128) % (q as u128);
        proof { vstd::arithmetic::div_mod::lemma_mod_bound(round_half_even(num as int, t as int), q as int); }
        out.push(v as u64);
        i = i + 1;
    }
    out
}

/// With one bit, decompressing then compressing returns every bit unchanged.
pub proof fn lemma_one_bit_round_trip(b: int, q: int)
    requires
        b == 0 || b == 1,
        q >= 2,
    ensures
        compress_coef(decompress_coef(b, q, 2), q, 2) == b,
{
    vstd::arithmetic::div_mod::lemma_small_mod(0, q as nat);
    vstd::arithmetic::div_mod::lemma_small_mod(0, 2);
    vstd::arithmetic::div_mod::lemma_small_mod(1, 2);
    if b == 0 {
        vstd::arithmetic::div_mod::lemma_small_mod(0, 2);
        assert(round_half_even(0, 2) == 0);
        assert(decompress_coef(0, q, 2) == 0);
        vstd::arithmetic::div_mod::lemma_small_mod(0, q as nat);
        assert(round_half_even(0, q) == 0);
    } else {
        vstd::arithmetic::div_mod::lemma_fundamental_div_mod(q, 2);
        vstd::arithmetic::div_mod::lemma_mod_bound(q, 2);
        let h = round_half_even(q, 2);
        assert(q - 1 <= 2 * h <= q + 1);
        assert(0 < h < q);
        vstd::arithmetic::div_mod::lemma_small_mod(h as nat, q as nat);
        assert(decompress_coef(1, q, 2) == h);
        let a = 2 * h;
        if a == q - 1 {
            assert(q % 2 == 1);
            assert(q >= 3);
            vstd::arithmetic::div_mod::lemma_fundamental_div_mod_converse(a, q, 0, q - 1);
        } else if a == q {
            vstd::arithmetic::div_mod::lemma_fundamental_div_mod_converse(a, q, 1, 0);
        } else {
            assert(q % 2 == 1);
            assert(q >= 3);
            vstd::arithmetic::div_mod::lemma_fundamental_div_mod_converse(a, q, 1, 1);
        }
        assert(round_half_even(a, q) == 1);
    }
}

/// The product of `a` and `b` in `Z_q[x]/(x^n + 1)`.
pub open spec fn ring_mul(a: Seq<int>, b: Seq<int>, n: int, q: int) -> Seq<int> {
    Seq::new(n as nat, |k: int| neg_conv(a, b, k, n) % q)
}

pub open spec fn ring_add(a: Seq<int>, b: Seq<int>, q: int) -> Seq<int> {
    Seq::new(a.len(), |k: int| (a[k] + b[k]) % q)
}

pub open spec fn ring_sub(a: Seq<int>, b: Seq<int>, q: int) -> Seq<int> {
    Seq::new(a.len(), |k: int| (a[k] - b[k]) % q)
}

/// `Σ_{j < m} row_j · v_j` in the ring, the empty sum being zero.
pub open spec fn ring_dot(row: Seq<Seq<int>>, v: Seq<Seq<int>>, m: nat, n: int, q: int) -> Seq<int>
    decreases m,
{
    if m == 0 {
        Seq::new(n as nat, |k: int| 0int)
    } else {
        ring_add(ring_dot(row, v, (m - 1) as nat, n, q), ring_mul(row[m - 1], v[m - 1], n, q), q)
    }
}

/// Polynomials as integer sequences.
pub open spec fn polys(v: Seq<Vec<u64>>) -> Seq<Seq<int>> {
    v.map_values(|p: Vec<u64>| ints(p@))
}

/// Row `i` of the transpose of the `k × k` matrix `a`.
pub open spec fn column(a: Seq<Seq<Seq<int>>>, i: int) -> Seq<Seq<int>> {
    Seq::new(a.len(), |j: int| a[j][i])
}

/// `n` residues modulo `q`.
pub open spec fn is_poly(p: Seq<u64>, n: nat, q: u64) -> bool {
    p.len() == n && forall|i: int| 0 <= i < n ==> #[trigger] p[i] < q
}

pub open spec fn is_poly_vec(v: Seq<Vec<u64>>, k: nat, n: nat, q: u64) -> bool {
    v.len() == k && forall|i: int| 0 <= i < k ==> is_poly(#[trigger] v[i]@, n, q)
}

/// The product in `Z_q[x]/(x^n + 1)`, by negacyclic convolution.
pub fn poly_mul(a: &Vec<u64>, b: &Vec<u64>, q: u64) -> (r: Vec<u64>)
    requires
        1 <= a@.len() <= MAX_DEGREE,
        b@.len() == a@.len(),
        2 <= q < MAX_CIPHERTEXT_MODULUS,
        forall|i: int| 0 <= i < a@.len() ==> #[trigger] a@[i] < q,
        forall|i: int| 0 <= i < b@.len() ==> #[trigger] b@[i] < q,
    ensures
        is_poly(r@, a@.len() as nat, q),
        ints(r@) == ring_mul(ints(a@), ints(b@), a@.len() as int, q as int),
{
    let n = a.len();
    let mut out: Vec<u64> = Vec::new();
    let mut k: usize = 0;
    while k < n
        invariant
            n == a@.len(),
            1 <= n <= MAX_DEGREE,
            b@.len() == n,
            2 <= q < MAX_CIPHERTEXT_MODULUS,
            forall|i: int| 0 <= i < a@.len() ==> #[trigger] a@[i] < q,
            forall|i: int| 0 <= i < b@.len() ==> #[trigger] b@[i] < q,
            k <= n,
            out@.len() == k,
            forall|j: int| 0 <= j < k ==> #[trigger] out@[j] < q,
            forall|j: int| 0 <= j < k ==> #[trigger] out@[j] as int == neg_conv(ints(a@), ints(b@), j, n as int) % (q as int),
        decreases n - k,
    {
        let acc = neg_conv_split(a, b, k, q, (0, 0, 0, 0));
        proof {
            assert((n as int) * (q as int) <= 0x8000_0000 * 0x4000_0000_0000_0000) by (nonlinear_arith)
                requires n <= 0x7fff_ffff, q < 0x4000_0000_0000_0000;
            assert((q as int) * (0u128 - 0u128) + (0u128 - 0u128) == 0) by (nonlinear_arith);
        }
        let l: i128 = acc.1 as i128 - acc.3 as i128;
        let v = mod_q(l, q);
        proof {
            let h = acc.0 - acc.2;
            vstd::arithmetic::div_mod::lemma_mod_multiples_vanish(h, l as int, q as int);
            assert(neg_conv(ints(a@), ints(b@), k as int, n as int) == (q as int) * h + l);
        }
        out.push(v);
        k = k + 1;
    }
    assert(ints(out@) =~= ring_mul(ints(a@), ints(b@), n as int, q as int));
    out
}

fn poly_add_sub(a: &Vec<u64>, b: &Vec<u64>, q: u64, subtract: bool) -> (r: Vec<u64>)
    requires
        2 <= q < MAX_CIPHERTEXT_MODULUS,
        b@.len() == a@.len(),
        forall|i: int| 0 <= i < a@.len() ==> #[trigger] a@[i] < q,
        forall|i: int| 0 <= i < b@.len() ==> #[trigger] b@[i] < q,
    ensures
        is_poly(r@, a@.len() as nat, q),
        ints(r@) == if subtract { ring_sub(ints(a@), ints(b@), q as int) } else { ring_add(ints(a@), ints(b@), q as int) },
{
    let mut out: Vec<u64> = Vec::new();
    let mut k: usize = 0;
    while k < a.len()
        invariant
            2 <= q < MAX_CIPHERTEXT_MODULUS,
            b@.len() == a@.len(),
            forall|i: int| 0 <= i < a@.len() ==> #[trigger] a@[i] < q,
            forall|i: int| 0 <= i < b@.len() ==> #[trigger] b@[i] < q,
            k <= a@.len(),
            out@.len() == k,
            forall|j: int| 0 <= j < k ==> #[trigger] out@[j] < q,
            forall|j: int| 0 <= j < k ==> #[trigger] out@[j] as int == (if subtract { a@[j] - b@[j] } else { a@[j] + b@[j] }) % (q as int),
        decreases a@.len() - k,
    {
        let v = if subtract { sub_mod(a[k], b[k], q) } else { add_mod(a[k], b[k], q) };
        out.push(v);
        k = k + 1;
    }
    proof {
        if subtract {
            assert(ints(out@) =~= ring_sub(ints(a@), ints(b@), q as int));
        } else {
            assert(ints(out@) =~= ring_add(ints(a@), ints(b@), q as int));
        }
    }
    out
}

/// `Σ_j row_j · v_j` for `k` polynomials each side.
fn poly_dot(row: &Vec<&Vec<u64>>, v: &Vec<Vec<u64>>, n: usize, q: u64) -> (r: Vec<u64>)
    requires
        1 <= n <= MAX_DEGREE,
        2 <= q < MAX_CIPHERTEXT_MODULUS,
        row@.len() == v@.len(),
        forall|j: int| 0 <= j < row@.len() ==> is_poly((#[trigger] row@[j])@, n as nat, q),
        is_poly_vec(v@, v@.len(), n as nat, q),
    ensures
        is_poly(r@, n as nat, q),
        ints(r@) == ring_dot(Seq::new(row@.len(), |j: int| ints(row@[j]@)), polys(v@), v@.len(), n as int, q as int),
{
    let ghost rs = Seq::new(row@.len(), |j: int| ints(row@[j]@));
    let mut acc: Vec<u64> = Vec::new();
    let mut t: usize = 0;
    while t < n
        invariant
            t <= n,
            acc@.len() == t,
            forall|i: int| 0 <= i < t ==> #[trigger] acc@[i] == 0,
        decreases n - t,
    {
        acc.push(0);
        t = t + 1;
    }
    assert(ints(acc@) =~= ring_dot(rs, polys(v@), 0, n as int, q as int));
    let mut j: usize = 0;
    while j < v.len()
        invariant
            1 <= n <= MAX_DEGREE,
            2 <= q < MAX_CIPHERTEXT_MODULUS,
            row@.len() == v@.len(),
            forall|i: int| 0 <= i < row@.len() ==> is_poly((#[trigger] row@[i])@, n as nat, q),
            is_poly_vec(v@, v@.len(), n as nat, q),
            rs == Seq::new(row@.len(), |i: int| ints(row@[i]@)),
            j <= v@.len(),
            is_poly(acc@, n as nat, q),
            ints(acc@) == ring_dot(rs, polys(v@), j as nat, n as int, q as int),
        decreases v@.len() - j,
    {
        let p = poly_mul(row[j], &v[j], q);
        proof {
            assert(is_poly(v@[j as int]@, n as nat, q));
            assert(polys(v@)[j as int] == ints(v@[j as int]@));
        }
        acc = poly_add_sub(&acc, &p, q, false);
        j = j + 1;
    }
    acc
}

/// Parameters of a Kyber-style public-key scheme over `Z_q[x]/(x^n + 1)`:
/// module rank `k` and the compression widths of the two ciphertext parts.
#[derive(Debug, Clone, Copy, PartialEq, Eq, Structural)]
pub struct KyberParams {
    pub k: usize,
    pub n: usize,
    pub q: u64,
    pub du: u32,
    pub dv: u32,
}

impl KyberParams {
    pub open spec fn wf(&self) -> bool {
        &&& 1 <= self.k <= 8
        &&& 1 <= self.n <= MAX_DEGREE
        &&& 2 <= self.q < MAX_CIPHERTEXT_MODULUS
        &&& self.du <= MAX_COMPRESSION_BITS && self.dv <= MAX_COMPRESSION_BITS
    }

    /// Kyber512: rank 2, `du = 10`, `dv = 4`.
    pub fn kyber512() -> (r: KyberParams)
        ensures
            r.wf() && r.k == 2 && r.n == 256 && r.q == 3329 && r.du == 10 && r.dv == 4,
    {
        KyberParams { k: 2, n: 256, q: 3329, du: 10, dv: 4 }
    }

    /// Kyber768: rank 3, `du = 10`, `dv = 4`.
    pub fn kyber768() -> (r: KyberParams)
        ensures
            r.wf() && r.k == 3 && r.n == 256 && r.q == 3329 && r.du == 10 && r.dv == 4,
    {
        KyberParams { k: 3, n: 256, q: 3329, du: 10, dv: 4 }
    }

    /// Kyber1024: rank 4, `du = 11`, `dv = 5`.
    pub fn kyber1024() -> (r: KyberParams)
        ensures
            r.wf() && r.k == 4 && r.n == 256 && r.q == 3329 && r.du == 11 && r.dv == 5,
    {
        KyberParams { k: 4, n: 256, q: 3329, du: 11, dv: 5 }
    }
}

/// A key pair: the public matrix `A`, `t = A·s + e`, and the secret `s`.
pub struct Kyber {
    pub params: KyberParams,
    pub a: Vec<Vec<Vec<u64>>>,
    pub t: Vec<Vec<u64>>,
    pub s: Vec<Vec<u64>>,
}

impl Kyber {
    pub open spec fn wf(&self) -> bool {
        let p = self.params;
        &&& p.wf()
        &&& self.a@.len() == p.k
        &&& forall|i: int| 0 <= i < p.k ==> is_poly_vec((#[trigger] self.a@[i])@, p.k as nat, p.n as nat, p.q)
        &&& is_poly_vec(self.t@, p.k as nat, p.n as nat, p.q)
        &&& is_poly_vec(self.s@, p.k as nat, p.n as nat, p.q)
    }

    /// The matrix as integer polynomials.
    pub open spec fn matrix(&self) -> Seq<Seq<Seq<int>>> {
        self.a@.map_values(|row: Vec<Vec<u64>>| polys(row@))
    }

    /// Key generation from given samples: the uniform matrix `a` (`k × k`)
    /// and the small `s` and `e` (`k` polynomials each, residues modulo `q`).
    /// `LengthMismatch` when a shape is wrong, `BadParameters` when an entry
    /// is not a residue.
    pub fn init(params: KyberParams, a: Vec<Vec<Vec<u64>>>, s: Vec<Vec<u64>>, e: &Vec<Vec<u64>>) -> (r: Result<Kyber, AlgebraError>)
        requires
            params.wf(),
        ensures
            r is Ok <==> ((a@.len() == params.k
                && forall|i: int| 0 <= i < params.k ==> is_poly_vec((#[trigger] a@[i])@, params.k as nat, params.n as nat, params.q))
                && is_poly_vec(s@, params.k as nat, params.n as nat, params.q)
                && is_poly_vec(e@, params.k as nat, params.n as nat, params.q)),
            r matches Err(err) ==> err == AlgebraError::LengthMismatch || err == AlgebraError::BadParameters,
            r matches Ok(kp) ==> kp.wf() && kp.params == params && kp.a@ == a@ && kp.s@ == s@
                && forall|i: int| 0 <= i < params.k ==> #[trigger] ints(kp.t@[i]@) == ring_add(
                    ring_dot(kp.matrix()[i], polys(s@), params.k as nat, params.n as int, params.q as int),
                    ints(e@[i]@), params.q as int),
    {
        let k = params.k;
        let n = params.n;
        let q = params.q;
        if a.len() != k || !check_poly_vec(&s, k, n, q) || !check_poly_vec(e, k, n, q) {
            return Err(AlgebraError::LengthMismatch);
        }
        let mut i: usize = 0;
        while i < k
            invariant
                k == params.k && n == params.n && q == params.q,
                a@.len() == k,
                i <= k,
                forall|j: int| 0 <= j < i ==> is_poly_vec((#[trigger] a@[j])@, k as nat, n as nat, q),
            decreases k - i,
        {
            if !check_poly_vec(&a[i], k, n, q) {
                assert(!is_poly_vec((a@[i as int])@, k as nat, n as nat, q));
                return Err(AlgebraError::BadParameters);
            }
            i = i + 1;
        }
        let ghost m = a@.map_values(|row: Vec<Vec<u64>>| polys(row@));
        let mut t: Vec<Vec<u64>> = Vec::new();
        let mut i: usize = 0;
        while i < k
            invariant
                params.wf(),
                k == params.k && n == params.n && q == params.q,
                a@.len() == k,
                forall|j: int| 0 <= j < k ==> is_poly_vec((#[trigger] a@[j])@, k as nat, n as nat, q),
                is_poly_vec(s@, k as nat, n as nat, q),
                is_poly_vec(e@, k as nat, n as nat, q),
                m == a@.map_values(|row: Vec<Vec<u64>>| polys(row@)),
                i <= k,
                t@.len() == i,
                forall|j: int| 0 <= j < i ==> is_poly((#[trigger] t@[j])@, n as nat, q),
                forall|j: int| 0 <= j < i ==> #[trigger] ints(t@[j]@) == ring_add(
                    ring_dot(m[j], polys(s@), k as nat, n as int, q as int), ints(e@[j]@), q as int),
            decreases k - i,
        {
            let row = refs(&a[i]);
            proof {
                assert(is_poly_vec(a@[i as int]@, k as nat, n as nat, q));
                assert(Seq::new(row@.len(), |j: int| ints(row@[j]@)) =~= m[i as int]);
            }
            let d = poly_dot(&row, &s, n, q);
            proof { assert(is_poly(e@[i as int]@, n as nat, q)); }
            let ti = poly_add_sub(&d, &e[i], q, false);
            t.push(ti);
            i = i + 1;
        }
        let kp = Kyber { params, a, t, s };
        proof {
            assert(kp.matrix() == m);
            assert(is_poly_vec(kp.t@, k as nat, n as nat, q));
        }
        Ok(kp)
    }
}

/// Every coefficient of `p` compressed to `d` bits.
pub open spec fn compressed(p: Seq<int>, q: int, d: nat) -> Seq<int> {
    Seq::new(p.len(), |i: int| compress_coef(p[i], q, vstd::arithmetic::power::pow(2, d)))
}

/// Every `d`-bit coefficient of `p` expanded back to a residue.
pub open spec fn decompressed(p: Seq<int>, q: int, d: nat) -> Seq<int> {
    Seq::new(p.len(), |i: int| decompress_coef(p[i], q, vstd::arithmetic::power::pow(2, d)))
}

/// `n` values below `2^d`.
pub open spec fn is_short(p: Seq<u64>, n: nat, d: nat) -> bool {
    p.len() == n && forall|t: int| 0 <= t < n ==> #[trigger] p[t] < vstd::arithmetic::power::pow(2, d)
}

impl Kyber {
    /// Encryption of the message bits `m` (`n` values in `{0, 1}`) with
    /// given samples `r`, `e1` (`k` polynomials) and `e2`:
    /// `u = compress(Aᵀ·r + e1, du)`, `v = compress(tᵀ·r + e2 + decompress(m, 1), dv)`.
    /// `LengthMismatch` when a shape or entry is out of range.
    #[verifier::spinoff_prover]
    pub fn encrypt(&self, m: &Vec<u64>, r: &Vec<Vec<u64>>, e1: &Vec<Vec<u64>>, e2: &Vec<u64>)
        -> (res: Result<(Vec<Vec<u64>>, Vec<u64>), AlgebraError>)
        requires
            self.wf(),
        ensures
            res is Ok <==> (is_short(m@, self.params.n as nat, 1)
                && is_poly_vec(r@, self.params.k as nat, self.params.n as nat, self.params.q)
                && is_poly_vec(e1@, self.params.k as nat, self.params.n as nat, self.params.q)
                && is_poly(e2@, self.params.n as nat, self.params.q)),
            res matches Err(e) ==> e == AlgebraError::LengthMismatch,
            res matches Ok((u, v)) ==> {
                let p = self.params;
                let q = p.q as int;
                let n = p.n as int;
                &&& u@.len() == p.k
                &&& forall|i: int| 0 <= i < p.k ==> #[trigger] ints(u@[i]@) == compressed(ring_add(
                    ring_dot(column(self.matrix(), i), polys(r@), p.k as nat, n, q), ints(e1@[i]@), q), q, p.du as nat)
                &&& ints(v@) == compressed(ring_add(ring_add(ring_dot(polys(self.t@), polys(r@), p.k as nat, n, q),
                    ints(e2@), q), decompressed(ints(m@), q, 1), q), q, p.dv as nat)
            },
    {
        let k = self.params.k;
        let n = self.params.n;
        let q = self.params.q;
        proof { vstd::arithmetic::power::lemma_pow1(2); }
        if !check_short(m, n, 1) || !check_poly_vec(r, k, n, q) || !check_poly_vec(e1, k, n, q)
            || !check_poly_vec(&vec![e2.clone()], 1, n, q) {
            proof {
                if is_poly(e2@, n as nat, q) {
                    assert(is_poly_vec(seq![*e2], 1, n as nat, q));
                }
            }
            return Err(AlgebraError::LengthMismatch);
        }
        proof {
            let one = seq![*e2];
            assert(is_poly(one[0]@, n as nat, q));
        }
        let ghost mat = self.matrix();
        let mut u: Vec<Vec<u64>> = Vec::new();
        let mut i: usize = 0;
        while i < k
            invariant
                self.wf(),
                k == self.params.k && n == self.params.n && q == self.params.q,
                mat == self.matrix(),
                is_poly_vec(r@, k as nat, n as nat, q),
                is_poly_vec(e1@, k as nat, n as nat, q),
                i <= k,
                u@.len() == i,
                forall|j: int| 0 <= j < i ==> #[trigger] ints(u@[j]@) == compressed(ring_add(
                    ring_dot(column(mat, j), polys(r@), k as nat, n as int, q as int), ints(e1@[j]@), q as int),
                    q as int, self.params.du as nat),
            decreases k - i,
        {
            let mut col: Vec<&Vec<u64>> = Vec::new();
            let mut j: usize = 0;
            while j < k
                invariant
                    self.wf(),
                    k == self.params.k && n == self.params.n && q == self.params.q,
                    i < k,
                    j <= k,
                    col@.len() == j,
                    forall|t: int| 0 <= t < j ==> *(#[trigger] col@[t]) == self.a@[t]@[i as int],
                decreases k - j,
            {
                proof { assert(is_poly_vec(self.a@[j as int]@, k as nat, n as nat, q)); }
                col.push(&self.a[j][i]);
                j = j + 1;
            }
            proof {
                assert forall|t: int| 0 <= t < col@.len() implies is_poly((#[trigger] col@[t])@, n as nat, q) by {
                    assert(is_poly_vec(self.a@[t]@, k as nat, n as nat, q));
                }
                assert(Seq::new(col@.len(), |t: int| ints(col@[t]@)) =~= column(mat, i as int));
            }
            let d = poly_dot(&col, r, n, q);
            proof { assert(is_poly(e1@[i as int]@, n as nat, q)); }
            let s1 = poly_add_sub(&d, &e1[i], q, false);
            let c = compress(&s1, q, self.params.du);
            proof { assert(ints(c@) =~= compressed(ints(s1@), q as int, self.params.du as nat)); }
            u.push(c);
            i = i + 1;
        }
        let trefs = refs(&self.t);
        proof {
            assert forall|t: int| 0 <= t < trefs@.len() implies is_poly((#[trigger] trefs@[t])@, n as nat, q) by {}
            assert(Seq::new(trefs@.len(), |t: int| ints(trefs@[t]@)) =~= polys(self.t@));
        }
        let d = poly_dot(&trefs, r, n, q);
        let s1 = poly_add_sub(&d, e2, q, false);
        let mm = decompress(m, q, 1);
        proof { assert(ints(mm@) =~= decompressed(ints(m@), q as int, 1)); }
        let s2 = poly_add_sub(&s1, &mm, q, false);
        let v = compress(&s2, q, self.params.dv);
        proof { assert(ints(v@) =~= compressed(ints(s2@), q as int, self.params.dv as nat)); }
        Ok((u, v))
    }

    /// Decryption: `compress(decompress(v, dv) - sᵀ·decompress(u, du), 1)`,
    /// the message bits. `LengthMismatch` when a shape or entry is out of range.
    #[verifier::spinoff_prover]
    pub fn decrypt(&self, u: &Vec<Vec<u64>>, v: &Vec<u64>) -> (res: Result<Vec<u64>, AlgebraError>)
        requires
            self.wf(),
        ensures
            res is Ok <==> (u@.len() == self.params.k
                && (forall|i: int| 0 <= i < self.params.k ==> is_short(#[trigger] u@[i]@, self.params.n as nat, self.params.du as nat))
                && is_short(v@, self.params.n as nat, self.params.dv as nat)),
            res matches Err(e) ==> e == AlgebraError::LengthMismatch,
            res matches Ok(m) ==> {
                let p = self.params;
                let q = p.q as int;
                let ud = Seq::new(p.k as nat, |i: int| decompressed(ints(u@[i]@), q, p.du as nat));
                ints(m@) == compressed(ring_sub(decompressed(ints(v@), q, p.dv as nat),
                    ring_dot(polys(self.s@), ud, p.k as nat, p.n as int, q), q), q, 1)
            },
    {
        let k = self.params.k;
        let n = self.params.n;
        let q = self.params.q;
        if u.len() != k || !check_short(v, n, self.params.dv) {
            return Err(AlgebraError::LengthMismatch);
        }
        let ghost ud = Seq::new(k as nat, |i: int| decompressed(ints(u@[i]@), q as int, self.params.du as nat));
        let mut dus: Vec<Vec<u64>> = Vec::new();
        let mut i: usize = 0;
        while i < k
            invariant
                self.wf(),
                k == self.params.k && n == self.params.n && q == self.params.q,
                u@.len() == k,
                ud == Seq::new(k as nat, |j: int| decompressed(ints(u@[j]@), q as int, self.params.du as nat)),
                i <= k,
                forall|j: int| 0 <= j < i ==> is_short(#[trigger] u@[j]@, n as nat, self.params.du as nat),
                is_poly_vec(dus@, i as nat, n as nat, q),
                forall|j: int| 0 <= j < i ==> #[trigger] ints(dus@[j]@) == ud[j],
            decreases k - i,
        {
            if !check_short(&u[i], n, self.params.du) {
                return Err(AlgebraError::LengthMismatch);
            }
            let d = decompress(&u[i], q, self.params.du);
            proof { assert(ints(d@) =~= ud[i as int]); }
            dus.push(d);
            i = i + 1;
        }
        let srefs = refs(&self.s);
        proof {
            assert forall|t: int| 0 <= t < srefs@.len() implies is_poly((#[trigger] srefs@[t])@, n as nat, q) by {}
            assert(Seq::new(srefs@.len(), |t: int| ints(srefs@[t]@)) =~= polys(self.s@));
            assert(polys(dus@) =~= ud);
        }
        let d = poly_dot(&srefs, &dus, n, q);
        let vd = decompress(v, q, self.params.dv);
        proof { assert(ints(vd@) =~= decompressed(ints(v@), q as int, self.params.dv as nat)); }
        let w = poly_add_sub(&vd, &d, q, true);
        let m = compress(&w, q, 1);
        proof { assert(ints(m@) =~= compressed(ints(w@), q as int, 1)); }
        Ok(m)
    }
}

/// Whether `p` holds `n` values below `2^d`.
fn check_short(p: &Vec<u64>, n: usize, d: u32) -> (r: bool)
    requires
        d <= MAX_COMPRESSION_BITS,
    ensures
        r == is_short(p@, n as nat, d as nat),
{
    let t = two_pow(d);
    if p.len() != n {
        return false;
    }
    let mut i: usize = 0;
    while i < n
        invariant
            p@.len() == n,
            t as int == vstd::arithmetic::power::pow(2, d as nat),
            i <= n,
            forall|j: int| 0 <= j < i ==> #[trigger] p@[j] < vstd::arithmetic::power::pow(2, d as nat),
        decreases n - i,
    {
        if p[i] >= t {
            return false;
        }
        i = i + 1;
    }
    true
}

/// References to the polynomials of a row.
fn refs(row: &Vec<Vec<u64>>) -> (r: Vec<&Vec<u64>>)
    ensures
        r@.len() == row@.len(),
        forall|j: int| 0 <= j < row@.len() ==> *(#[trigger] r@[j]) == row@[j],
{
    let mut out: Vec<&Vec<u64>> = Vec::new();
    let mut j: usize = 0;
    while j < row.len()
        invariant
            j <= row@.len(),
            out@.len() == j,
            forall|i: int| 0 <= i < j ==> *(#[trigger] out@[i]) == row@[i],
        decreases row@.len() - j,
    {
        out.push(&row[j]);
        j = j + 1;
    }
    out
}

/// Whether `v` holds `k` polynomials of `n` residues modulo `q`.
fn check_poly_vec(v: &Vec<Vec<u64>>, k: usize, n: usize, q: u64) -> (r: bool)
    ensures
        r == is_poly_vec(v@, k as nat, n as nat, q),
{
    if v.len() != k {
        return false;
    }
    let mut i: usize = 0;
    while i < k
        invariant
            v@.len() == k,
            i <= k,
            forall|j: int| 0 <= j < i ==> is_poly(#[trigger] v@[j]@, n as nat, q),
        decreases k - i,
    {
        if v[i].len() != n {
            return false;
        }
        let mut t: usize = 0;
        while t < n
            invariant
                v@.len() == k,
                i < k,
                v@[i as int]@.len() == n,
                t <= n,
                forall|u: int| 0 <= u < t ==> #[trigger] v@[i as int]@[u] < q,
            decreases n - t,
        {
            if v[i][t] >= q {
                return false;
            }
            t = t + 1;
        }
        i = i + 1;
    }
    true
}

} // verus!
