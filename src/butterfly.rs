use vstd::prelude::*;
use vstd::arithmetic::div_mod::{lemma_add_mod_noop, lemma_mod_bound, lemma_mul_mod_noop_general,
    lemma_small_mod, lemma_sub_mod_noop};
use vstd::arithmetic::power::{lemma_pow_adds, lemma_pow_mod_noop, lemma_pow_multiplies, pow};
use vstd::arithmetic::mul::{lemma_mul_is_associative, lemma_mul_is_commutative};
use crate::ntt::{is_pow2, lin_sum};
use crate::upoly::ints;
use crate::zq::{add_mod, mul_mod, sub_mod, valid_modulus};

verus! {

/// The entries of `v` at even indices.
pub open spec fn evens(v: Seq<int>) -> Seq<int> {
    Seq::new(v.len() / 2, |t: int| v[2 * t])
}

/// The entries of `v` at odd indices.
pub open spec fn odds(v: Seq<int>) -> Seq<int> {
    Seq::new(v.len() / 2, |t: int| v[2 * t + 1])
}

/// Splitting a sum over `2j` terms into its even and odd halves.
proof fn lemma_split(v: Seq<int>, w: int, k: nat, j: nat)
    requires
        v.len() % 2 == 0,
        2 * j <= v.len(),
    ensures
        lin_sum(v, w, 0, k, 2 * j) == lin_sum(evens(v), w * w, 0, k, j) + pow(w, k) * lin_sum(odds(v), w * w, 0, k, j),
    decreases j,
{
    if j > 0 {
        let j1 = (j - 1) as nat;
        lemma_split(v, w, k, j1);
        let e = v[2 * j1 as int];
        let o = v[2 * j1 as int + 1];
        // (w·w)^(k·j1) = w^(2·k·j1)
        lemma_pow_multiplies(w, 2, k * j1);
        assert(pow(w, 2) == w * w) by {
            lemma_pow_adds(w, 1, 1);
            vstd::arithmetic::power::lemma_pow1(w);
        }
        lemma_pow_adds(w, k, 2 * (k * j1));
        assert((0 + k * (2 * j1)) as nat == 2 * (k * j1)) by (nonlinear_arith);
        assert((0 + k * (2 * j1 + 1)) as nat == k + 2 * (k * j1)) by (nonlinear_arith);
        assert((0 + k * j1) as nat == k * j1);
        assert(2 * j == 2 * j1 + 2);
        let m1: nat = 2 * j1 + 1;
        let m0: nat = 2 * j1;
        assert(lin_sum(v, w, 0, k, m1 + 1) == lin_sum(v, w, 0, k, m1) + v[m1 as int] * pow(w, 0 + k * m1));
        assert(lin_sum(v, w, 0, k, m0 + 1) == lin_sum(v, w, 0, k, m0) + v[m0 as int] * pow(w, 0 + k * m0));
        assert(lin_sum(v, w, 0, k, 2 * j) == lin_sum(v, w, 0, k, (2 * j1) as nat)
            + e * pow(w, (0 + k * (2 * j1)) as nat) + o * pow(w, (0 + k * (2 * j1 + 1)) as nat));
        assert(evens(v)[j1 as int] == e && odds(v)[j1 as int] == o);
        let p = pow(w, k);
        let ww = pow(w, 2 * (k * j1));
        assert(p * (lin_sum(odds(v), w * w, 0, k, j1) + o * ww) == p * lin_sum(odds(v), w * w, 0, k, j1) + o * (p * ww))
            by (nonlinear_arith);
    }
}

/// A sum's value modulo `q` depends on its base modulo `q` only.
proof fn lemma_base_mod(v: Seq<int>, b: int, k: nat, m: nat, q: int)
    requires
        q > 0,
        m <= v.len(),
    ensures
        lin_sum(v, b, 0, k, m) % q == lin_sum(v, b % q, 0, k, m) % q,
    decreases m,
{
    if m > 0 {
        let m1 = (m - 1) as nat;
        lemma_base_mod(v, b, k, m1, q);
        let e = (0 + k * m1) as nat;
        lemma_pow_mod_noop(b, e, q);
        vstd::arithmetic::div_mod::lemma_mod_twice(b, q);
        lemma_pow_mod_noop(b % q, e, q);
        lemma_mul_mod_noop_general(v[m1 as int], pow(b, e), q);
        lemma_mul_mod_noop_general(v[m1 as int], pow(b % q, e), q);
        lemma_add_mod_noop(lin_sum(v, b, 0, k, m1), v[m1 as int] * pow(b, e), q);
        lemma_add_mod_noop(lin_sum(v, b % q, 0, k, m1), v[m1 as int] * pow(b % q, e), q);
    }
}

/// Shifting the evaluation index by `h` changes nothing when `b^h ≡ 1`.
proof fn lemma_shift_period(u: Seq<int>, b: int, k: nat, h: nat, m: nat, q: int)
    requires
        q > 1,
        m <= u.len(),
        pow(b, h) % q == 1,
    ensures
        lin_sum(u, b, 0, k + h, m) % q == lin_sum(u, b, 0, k, m) % q,
    decreases m,
{
    if m > 0 {
        let m1 = (m - 1) as nat;
        lemma_shift_period(u, b, k, h, m1, q);
        // b^((k+h)·t) = b^(k·t) · (b^h)^t ≡ b^(k·t)
        let t = m1;
        assert((0 + (k + h) * t) as nat == k * t + h * t) by (nonlinear_arith);
        assert((0 + k * t) as nat == k * t);
        lemma_pow_adds(b, k * t, h * t);
        lemma_pow_multiplies(b, h, t);
        crate::ntt_lemmas::lemma_pow_of_one_pub(pow(b, h), t, q);
        lemma_mul_mod_noop_general(pow(b, k * t), pow(b, h * t), q);
        lemma_small_mod(1, q as nat);
        lemma_mul_mod_noop_general(u[t as int], pow(b, k * t) * pow(b, h * t), q);
        lemma_mul_mod_noop_general(u[t as int], pow(b, k * t), q);
        assert((pow(b, k * t) * pow(b, h * t)) % q == pow(b, k * t) % q) by {
            assert((pow(b, k * t) % q) * 1 == pow(b, k * t) % q);
        }
        lemma_add_mod_noop(lin_sum(u, b, 0, k + h, m1), u[t as int] * pow(b, (k + h) * t), q);
        lemma_add_mod_noop(lin_sum(u, b, 0, k, m1), u[t as int] * pow(b, k * t), q);
    }
}

/// `v` with entry `t` multiplied by `p^t`.
pub open spec fn twisted(v: Seq<int>, p: int) -> Seq<int> {
    Seq::new(v.len(), |t: int| v[t] * pow(p, t as nat))
}

/// The negacyclic sum at `p^(2k+1)` is the cyclic sum of the twisted vector at `(p²)^k`.
pub proof fn lemma_twist(v: Seq<int>, p: int, k: nat, m: nat)
    requires
        m <= v.len(),
    ensures
        lin_sum(v, p, 0, 2 * k + 1, m) == lin_sum(twisted(v, p), p * p, 0, k, m),
    decreases m,
{
    if m > 0 {
        let t = (m - 1) as nat;
        lemma_twist(v, p, k, t);
        assert(pow(p, 2) == p * p) by {
            lemma_pow_adds(p, 1, 1);
            vstd::arithmetic::power::lemma_pow1(p);
        }
        lemma_pow_multiplies(p, 2, k * t);
        lemma_pow_adds(p, t, 2 * (k * t));
        assert((0 + (2 * k + 1) * t) as nat == t + 2 * (k * t)) by (nonlinear_arith);
        assert((0 + k * t) as nat == k * t);
        assert(twisted(v, p)[t as int] == v[t as int] * pow(p, t));
        assert(v[t as int] * (pow(p, t) * pow(p, 2 * (k * t))) == (v[t as int] * pow(p, t)) * pow(p, 2 * (k * t)))
            by (nonlinear_arith);
    }
}

/// The inverse negacyclic sum factors as `p^j` times a cyclic sum at `(p²)^j`.
pub proof fn lemma_untwist(w: Seq<int>, p: int, j: nat, m: nat)
    requires
        m <= w.len(),
    ensures
        lin_sum(w, p, j, 2 * j, m) == pow(p, j) * lin_sum(w, p * p, 0, j, m),
    decreases m,
{
    if m > 0 {
        let t = (m - 1) as nat;
        lemma_untwist(w, p, j, t);
        assert(pow(p, 2) == p * p) by {
            lemma_pow_adds(p, 1, 1);
            vstd::arithmetic::power::lemma_pow1(p);
        }
        lemma_pow_multiplies(p, 2, j * t);
        lemma_pow_adds(p, j, 2 * (j * t));
        assert((j + 2 * j * t) as nat == j + 2 * (j * t)) by (nonlinear_arith);
        assert((0 + j * t) as nat == j * t);
        let a = pow(p, j);
        let c = pow(p, 2 * (j * t));
        assert(a * (lin_sum(w, p * p, 0, j, t) + w[t as int] * c) == a * lin_sum(w, p * p, 0, j, t) + w[t as int] * (a * c))
            by (nonlinear_arith);
    }
}

/// Sums whose entries agree modulo `q` agree modulo `q`.
pub proof fn lemma_entries_mod(u: Seq<int>, u2: Seq<int>, b: int, k: nat, m: nat, q: int)
    requires
        q > 0,
        m <= u.len(),
        m <= u2.len(),
        forall|t: int| 0 <= t < m ==> #[trigger] u[t] % q == u2[t] % q,
    ensures
        lin_sum(u, b, 0, k, m) % q == lin_sum(u2, b, 0, k, m) % q,
    decreases m,
{
    if m > 0 {
        let m1 = (m - 1) as nat;
        lemma_entries_mod(u, u2, b, k, m1, q);
        let e = (0 + k * m1) as nat;
        lemma_mul_mod_noop_general(u[m1 as int], pow(b, e), q);
        lemma_mul_mod_noop_general(u2[m1 as int], pow(b, e), q);
        lemma_add_mod_noop(lin_sum(u, b, 0, k, m1), u[m1 as int] * pow(b, e), q);
        lemma_add_mod_noop(lin_sum(u2, b, 0, k, m1), u2[m1 as int] * pow(b, e), q);
    }
}

/// Reducing the base modulo `q` keeps the sum modulo `q`.
pub proof fn lemma_base_mod_pub(v: Seq<int>, b: int, k: nat, m: nat, q: int)
    requires
        q > 0,
        m <= v.len(),
    ensures
        lin_sum(v, b, 0, k, m) % q == lin_sum(v, b % q, 0, k, m) % q,
{
    lemma_base_mod(v, b, k, m, q);
}

/// The cyclic transform by recursive radix-2 butterflies: output `k` is
/// `Σ_t v_t · w^(k·t) mod q`, for `w` of order `n = len v` (a power of two)
/// with `w^(n/2) ≡ -1`.
#[verifier::spinoff_prover]
pub fn cooley_tukey(v: &Vec<u64>, w: u64, q: u64) -> (r: Vec<u64>)
    requires
        valid_modulus(q as int),
        q > 1,
        is_pow2(v@.len() as nat),
        w < q,
        pow(w as int, v@.len() as nat) % (q as int) == 1,
        v@.len() >= 2 ==> pow(w as int, (v@.len() / 2) as nat) % (q as int) == q - 1,
        forall|i: int| 0 <= i < v@.len() ==> #[trigger] v@[i] < q,
    ensures
        r@.len() == v@.len(),
        forall|k: int| 0 <= k < v@.len() ==> #[trigger] r@[k] < q,
        forall|k: int| 0 <= k < v@.len() ==> #[trigger] r@[k] as int
            == lin_sum(ints(v@), w as int, 0, k as nat, v@.len()) % (q as int),
    decreases v@.len(),
{
    let n = v.len();
    if n == 1 {
        let r = vec![v[0]];
        proof {
            assert(ints(v@)[0] == v@[0] as int);
            vstd::arithmetic::power::lemma_pow0(w as int);
            lemma_small_mod(v@[0] as nat, q as nat);
            assert forall|k: int| 0 <= k < 1 implies #[trigger] r@[k] as int
                == lin_sum(ints(v@), w as int, 0, k as nat, 1) % (q as int) by {
                assert(k == 0);
                assert(lin_sum(ints(v@), w as int, 0, 0, 0) == 0);
                assert(lin_sum(ints(v@), w as int, 0, 0, 1) == 0 + ints(v@)[0] * pow(w as int, 0 + 0 * 0));
            }
        }
        return r;
    }
    let h = n / 2;
    let mut ev: Vec<u64> = Vec::new();
    let mut od: Vec<u64> = Vec::new();
    let mut t: usize = 0;
    while t < h
        invariant
            n == v@.len(),
            n >= 2,
            n % 2 == 0,
            h == n / 2,
            t <= h,
            ev@.len() == t && od@.len() == t,
            forall|i: int| 0 <= i < v@.len() ==> #[trigger] v@[i] < q,
            forall|i: int| 0 <= i < t ==> #[trigger] ev@[i] == v@[2 * i],
            forall|i: int| 0 <= i < t ==> #[trigger] od@[i] == v@[2 * i + 1],
        decreases h - t,
    {
        ev.push(v[2 * t]);
        od.push(v[2 * t + 1]);
        t = t + 1;
    }
    let w2 = mul_mod(w, w, q);
    proof {
        assert(n % 2 == 0);
        assert(is_pow2(h as nat));
        // w2^h ≡ w^n ≡ 1 and w2^(h/2) ≡ w^(n/2) ≡ -1
        assert(pow(w as int, 2) == (w as int) * (w as int)) by {
            lemma_pow_adds(w as int, 1, 1);
            vstd::arithmetic::power::lemma_pow1(w as int);
        }
        lemma_pow_multiplies(w as int, 2, h as nat);
        lemma_pow_mod_noop((w as int) * (w as int), h as nat, q as int);
        assert(2 * h == n);
        if h >= 2 {
            assert(is_pow2(h as nat));
            assert(h % 2 == 0) by {
                if h % 2 == 1 { assert(!is_pow2(h as nat)); }
            }
            lemma_pow_multiplies(w as int, 2, (h / 2) as nat);
            lemma_pow_mod_noop((w as int) * (w as int), (h / 2) as nat, q as int);
            assert(2 * (h / 2) == n / 2);
        }
        assert forall|i: int| 0 <= i < ev@.len() implies #[trigger] ev@[i] < q by {}
        assert forall|i: int| 0 <= i < od@.len() implies #[trigger] od@[i] < q by {}
    }
    let e = cooley_tukey(&ev, w2, q);
    let o = cooley_tukey(&od, w2, q);
    let ghost vi = ints(v@);
    proof {
        assert(ints(ev@) =~= evens(vi));
        assert(ints(od@) =~= odds(vi));
    }
    let mut lo: Vec<u64> = Vec::new();
    let mut hi: Vec<u64> = Vec::new();
    let mut x: u64 = 1 % q;
    let mut k: usize = 0;
    proof {
        vstd::arithmetic::power::lemma_pow0(w as int);
    }
    while k < h
        invariant
            valid_modulus(q as int),
            q > 1,
            n == v@.len(),
            n >= 2,
            h == n / 2,
            2 * h == n,
            w < q,
            w2 as int == ((w as int) * (w as int)) % (q as int),
            pow(w as int, n as nat) % (q as int) == 1,
            pow(w as int, h as nat) % (q as int) == q - 1,
            vi == ints(v@),
            ints(ev@) == evens(vi),
            ints(od@) == odds(vi),
            e@.len() == h && o@.len() == h,
            forall|j: int| 0 <= j < h ==> #[trigger] e@[j] < q,
            forall|j: int| 0 <= j < h ==> #[trigger] o@[j] < q,
            forall|j: int| 0 <= j < h ==> #[trigger] e@[j] as int == lin_sum(ints(ev@), w2 as int, 0, j as nat, h as nat) % (q as int),
            forall|j: int| 0 <= j < h ==> #[trigger] o@[j] as int == lin_sum(ints(od@), w2 as int, 0, j as nat, h as nat) % (q as int),
            k <= h,
            x < q,
            x as int == pow(w as int, k as nat) % (q as int),
            lo@.len() == k && hi@.len() == k,
            forall|j: int| 0 <= j < k ==> #[trigger] lo@[j] < q && hi@[j] < q,
            forall|j: int| 0 <= j < k ==> #[trigger] lo@[j] as int == lin_sum(vi, w as int, 0, j as nat, n as nat) % (q as int),
            forall|j: int| 0 <= j < k ==> #[trigger] hi@[j] as int == lin_sum(vi, w as int, 0, (j + h) as nat, n as nat) % (q as int),
        decreases h - k,
    {
        let tw = mul_mod(x, o[k], q);
        let a = add_mod(e[k], tw, q);
        let b = sub_mod(e[k], tw, q);
        proof {
            let ww = (w as int) * (w as int);
            let kk = k as nat;
            let se = lin_sum(evens(vi), ww, 0, kk, h as nat);
            let so = lin_sum(odds(vi), ww, 0, kk, h as nat);
            let pk = pow(w as int, kk);
            lemma_base_mod(evens(vi), ww, kk, h as nat, q as int);
            lemma_base_mod(odds(vi), ww, kk, h as nat, q as int);
            assert(e@[k as int] as int == se % (q as int));
            assert(o@[k as int] as int == so % (q as int));
            lemma_split(vi, w as int, kk, h as nat);
            // low half: e + w^k·o
            lemma_mul_mod_noop_general(pk, so, q as int);
            lemma_add_mod_noop(se, pk * so, q as int);
            assert(tw as int == (pk * so) % (q as int));
            assert(a as int == lin_sum(vi, w as int, 0, kk, n as nat) % (q as int));
            // high half: the even and odd sums repeat with period h, and w^(k+h) ≡ -w^k
            lemma_split(vi, w as int, (kk + h) as nat, h as nat);
            assert(pow(ww, h as nat) % (q as int) == 1) by {
                assert(pow(w as int, 2) == ww) by {
                    lemma_pow_adds(w as int, 1, 1);
                    vstd::arithmetic::power::lemma_pow1(w as int);
                }
                lemma_pow_multiplies(w as int, 2, h as nat);
            }
            lemma_shift_period(evens(vi), ww, kk, h as nat, h as nat, q as int);
            lemma_shift_period(odds(vi), ww, kk, h as nat, h as nat, q as int);
            lemma_pow_adds(w as int, kk, h as nat);
            let pkh = pow(w as int, (kk + h) as nat);
            let so2 = lin_sum(odds(vi), ww, 0, (kk + h) as nat, h as nat);
            let se2 = lin_sum(evens(vi), ww, 0, (kk + h) as nat, h as nat);
            // pkh·so2 ≡ -(pk·so)
            lemma_mul_mod_noop_general(pk, pow(w as int, h as nat), q as int);
            lemma_mul_mod_noop_general(pkh, so2, q as int);
            lemma_mul_mod_noop_general(pkh, so, q as int);
            assert(pkh % (q as int) == (pk * (q - 1)) % (q as int)) by {
                lemma_mul_mod_noop_general(pk, pow(w as int, h as nat), q as int);
            }
            assert((pk * (q - 1)) % (q as int) == (-pk) % (q as int)) by {
                assert(pk * (q - 1) == (q as int) * pk + (-pk)) by (nonlinear_arith);
                vstd::arithmetic::div_mod::lemma_mod_multiples_vanish(pk, -pk, q as int);
            }
            assert((pkh * so2) % (q as int) == ((-pk) * so) % (q as int)) by {
                lemma_mul_mod_noop_general(pkh, so2, q as int);
                lemma_mul_mod_noop_general(-pk, so, q as int);
                lemma_mul_mod_noop_general(pkh, so, q as int);
            }
            assert((-pk) * so == -(pk * so)) by (nonlinear_arith);
            lemma_add_mod_noop(se2, pkh * so2, q as int);
            lemma_add_mod_noop(se, -(pk * so), q as int);
            lemma_sub_mod_noop(se, pk * so, q as int);
            assert(b as int == lin_sum(vi, w as int, 0, (kk + h) as nat, n as nat) % (q as int));
            // next power of w
            lemma_pow_adds(w as int, kk, 1);
            vstd::arithmetic::power::lemma_pow1(w as int);
            lemma_mul_mod_noop_general(pk, w as int, q as int);
            lemma_small_mod(w as nat, q as nat);
        }
        lo.push(a);
        hi.push(b);
        x = mul_mod(x, w, q);
        k = k + 1;
    }
    let mut r = lo;
    let mut j: usize = 0;
    let ghost lo_s = r@;
    while j < h
        invariant
            j <= h,
            hi@.len() == h,
            r@ == lo_s + hi@.subrange(0, j as int),
        decreases h - j,
    {
        r.push(hi[j]);
        j = j + 1;
        assert(r@ =~= lo_s + hi@.subrange(0, j as int));
    }
    proof {
        assert(hi@.subrange(0, h as int) =~= hi@);
        assert forall|k: int| 0 <= k < n implies #[trigger] r@[k] as int
            == lin_sum(ints(v@), w as int, 0, k as nat, n as nat) % (q as int) by {
            if k >= h {
                assert(r@[k] == hi@[k - h]);
                assert(((k - h) + h) as nat == k as nat);
            }
        }
        assert forall|k: int| 0 <= k < n implies #[trigger] r@[k] < q by {
            if k >= h { assert(r@[k] == hi@[k - h]); }
        }
    }
    r
}

} // verus!
