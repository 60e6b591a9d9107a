use vstd::prelude::*;
use vstd::arithmetic::div_mod::{
    lemma_add_mod_noop, lemma_fundamental_div_mod, lemma_mod_bound, lemma_mod_multiples_vanish,
    lemma_mul_mod_noop_general, lemma_small_mod, lemma_sub_mod_noop,
};
use vstd::arithmetic::mul::{lemma_mul_is_associative, lemma_mul_is_commutative,
    lemma_mul_is_distributive_add};
use vstd::arithmetic::power::{lemma_pow0, lemma_pow1, lemma_pow_adds, lemma_pow_mod_noop,
    lemma_pow_multiplies, pow};
use crate::ntt::{is_pow2, is_prime, lin_sum, point_exp, NTT};
use crate::upoly::{coef, conv, conv_sum};
use crate::zq::{gcd, lemma_gcd_divides, lemma_prime_units};

verus! {

/// `Σ_{k < n} f(k)`.
pub open spec fn sum(f: spec_fn(int) -> int, n: nat) -> int
    decreases n,
{
    if n == 0 {
        0
    } else {
        sum(f, (n - 1) as nat) + f(n - 1)
    }
}

proof fn lemma_sum_ext(f: spec_fn(int) -> int, g: spec_fn(int) -> int, n: nat)
    requires
        forall|k: int| 0 <= k < n ==> #[trigger] f(k) == g(k),
    ensures
        sum(f, n) == sum(g, n),
    decreases n,
{
    if n > 0 {
        lemma_sum_ext(f, g, (n - 1) as nat);
    }
}

proof fn lemma_sum_mod(f: spec_fn(int) -> int, g: spec_fn(int) -> int, n: nat, q: int)
    requires
        q > 0,
        forall|k: int| 0 <= k < n ==> #[trigger] f(k) % q == g(k) % q,
    ensures
        sum(f, n) % q == sum(g, n) % q,
    decreases n,
{
    if n > 0 {
        lemma_sum_mod(f, g, (n - 1) as nat, q);
        lemma_add_mod_noop(sum(f, (n - 1) as nat), f(n - 1), q);
        lemma_add_mod_noop(sum(g, (n - 1) as nat), g(n - 1), q);
    }
}

proof fn lemma_sum_scale(f: spec_fn(int) -> int, c: int, n: nat)
    ensures
        sum(|k: int| c * f(k), n) == c * sum(f, n),
    decreases n,
{
    if n > 0 {
        lemma_sum_scale(f, c, (n - 1) as nat);
        lemma_mul_is_distributive_add(c, sum(f, (n - 1) as nat), f(n - 1));
    }
}

proof fn lemma_sum_add(f: spec_fn(int) -> int, g: spec_fn(int) -> int, n: nat)
    ensures
        sum(|k: int| f(k) + g(k), n) == sum(f, n) + sum(g, n),
    decreases n,
{
    if n > 0 {
        lemma_sum_add(f, g, (n - 1) as nat);
    }
}

/// Exchanging the order of a double sum.
proof fn lemma_sum_swap(h: spec_fn(int, int) -> int, n: nat, m: nat)
    ensures
        sum(|k: int| sum(|t: int| h(k, t), m), n) == sum(|t: int| sum(|k: int| h(k, t), n), m),
    decreases n,
{
    if n > 0 {
        let n1 = (n - 1) as nat;
        lemma_sum_swap(h, n1, m);
        // Σ_t Σ_{k<n} h = Σ_t (Σ_{k<n-1} h + h(n-1, t)) = Σ_t Σ_{k<n-1} h + Σ_t h(n-1, t)
        let f = |t: int| sum(|k: int| h(k, t), n1);
        let g = |t: int| h(n1 as int, t);
        let outer = |k: int| sum(|t: int| h(k, t), m);
        let whole = |t: int| sum(|k: int| h(k, t), n);
        assert(sum(outer, n) == sum(outer, n1) + outer(n1 as int));
        assert(outer(n1 as int) == sum(|t: int| h(n1 as int, t), m));
        lemma_sum_ext(|t: int| h(n1 as int, t), g, m);
        lemma_sum_ext(|t: int| sum(|k: int| h(k, t), n1), f, m);
        lemma_sum_add(f, g, m);
        assert forall|t: int| 0 <= t < m implies #[trigger] whole(t) == (|t: int| f(t) + g(t))(t) by {
            assert(sum(|k: int| h(k, t), n) == sum(|k: int| h(k, t), n1) + h(n1 as int, t));
        }
        lemma_sum_ext(whole, |t: int| f(t) + g(t), m);
    } else {
        lemma_sum_zero(|t: int| sum(|k: int| h(k, t), n), m);
    }
}

/// A sum whose terms vanish but at `j` is its term at `j`.
proof fn lemma_sum_single(f: spec_fn(int) -> int, n: nat, j: int)
    requires
        0 <= j < n,
        forall|k: int| 0 <= k < n && k != j ==> #[trigger] f(k) == 0,
    ensures
        sum(f, n) == f(j),
    decreases n,
{
    if n > 0 {
        if j < n - 1 {
            lemma_sum_single(f, (n - 1) as nat, j);
        } else {
            lemma_sum_zero(f, (n - 1) as nat);
        }
    }
}

proof fn lemma_sum_zero(f: spec_fn(int) -> int, n: nat)
    requires
        forall|k: int| 0 <= k < n ==> #[trigger] f(k) == 0,
    ensures
        sum(f, n) == 0,
    decreases n,
{
    if n > 0 {
        lemma_sum_zero(f, (n - 1) as nat);
    }
}

proof fn lemma_sum_const(c: int, n: nat)
    ensures
        sum(|k: int| c, n) == c * n,
    decreases n,
{
    if n > 0 {
        let n1 = (n - 1) as nat;
        lemma_sum_const(c, n1);
        assert(sum(|k: int| c, n) == sum(|k: int| c, n1) + c);
        assert(c * n1 + c == c * n) by (nonlinear_arith) requires n1 + 1 == n;
    } else {
        assert(c * n == 0) by (nonlinear_arith) requires n == 0;
    }
}

proof fn lemma_lin_sum_is_sum(v: Seq<int>, r: int, a: nat, b: nat, m: nat)
    requires
        m <= v.len(),
    ensures
        lin_sum(v, r, a, b, m) == sum(|t: int| v[t] * pow(r, (a + b * t) as nat), m),
    decreases m,
{
    if m > 0 {
        lemma_lin_sum_is_sum(v, r, a, b, (m - 1) as nat);
        assert((a + b * (m - 1)) as nat == a + b * (m - 1) as nat);
    }
}

/// `(w - 1) · Σ_{k<n} w^k = w^n - 1`.
proof fn lemma_geometric(w: int, n: nat)
    ensures
        (w - 1) * sum(|k: int| pow(w, k as nat), n) == pow(w, n) - 1,
    decreases n,
{
    if n == 0 {
        lemma_pow0(w);
    } else {
        let n1 = (n - 1) as nat;
        lemma_geometric(w, n1);
        lemma_pow_adds(w, n1, 1);
        lemma_pow1(w);
        let s = sum(|k: int| pow(w, k as nat), n1);
        assert((w - 1) * (s + pow(w, n1)) == (w - 1) * s + (w - 1) * pow(w, n1)) by (nonlinear_arith);
        assert((w - 1) * pow(w, n1) == pow(w, n1) * w - pow(w, n1)) by (nonlinear_arith);
    }
}

/// Bézout coefficients: `a·s + b·t = gcd(a, b)`.
proof fn lemma_bezout(a: nat, b: nat) -> (r: (int, int))
    ensures
        a * r.0 + b * r.1 == gcd(a, b),
    decreases b,
{
    if b == 0 {
        (1, 0)
    } else {
        let (s, t) = lemma_bezout(b, a % b);
        lemma_fundamental_div_mod(a as int, b as int);
        let d = (a / b) as int;
        assert(a * t + b * (s - d * t) == b * s + (a % b) * t) by (nonlinear_arith)
            requires a as int == b * d + (a % b) as int;
        (t, s - d * t)
    }
}

/// Modulo a prime, a non-zero factor cancels from a product that vanishes.
proof fn lemma_prime_cancel(u: int, s: int, q: int)
    requires
        is_prime(q),
        u % q != 0,
        (u * s) % q == 0,
    ensures
        s % q == 0,
{
    lemma_mod_bound(u, q);
    let u1 = u % q;
    lemma_prime_units(q, u1);
    lemma_small_mod(u1 as nat, q as nat);
    let (x, y) = lemma_bezout(q as nat, u1 as nat);
    // q·x + u1·y = 1, so s = s·q·x + s·u1·y ≡ s·u1·y ≡ (u·s)·y ≡ 0
    assert(s == q * (s * x) + (u1 * s) * y) by (nonlinear_arith)
        requires q * x + u1 * y == 1;
    lemma_mul_mod_noop_general(u, s, q);
    assert((u1 * s) % q == 0);
    lemma_mul_mod_noop_general(u1 * s, y, q);
    lemma_small_mod(0, q as nat);
    assert(((u1 * s) * y) % q == 0);
    lemma_mod_multiples_vanish(s * x, (u1 * s) * y, q);
}

/// The inverse root has the same order as the root.
pub proof fn lemma_inverse_root_order(ctx: NTT)
    requires
        ctx.wf(),
        ctx.order() >= 2,
    ensures
        pow(ctx.root_inv as int, ctx.order() as nat) % (ctx.q as int) == 1,
        pow(ctx.root_inv as int, (ctx.order() / 2) as nat) % (ctx.q as int) == ctx.q - 1,
{
    let q = ctx.q as int;
    let r = ctx.root as int;
    let ri = ctx.root_inv as int;
    let o = ctx.order() as nat;
    lemma_pow_inverse(r, ri, o, q);
    lemma_pow_inverse(r, ri, o / 2, q);
    lemma_mul_mod_noop_general(pow(r, o), pow(ri, o), q);
    lemma_mul_mod_noop_general(pow(r, o / 2), pow(ri, o / 2), q);
    lemma_mod_bound(pow(ri, o), q);
    lemma_mod_bound(pow(ri, o / 2), q);
    let x = pow(ri, o) % q;
    let y = pow(ri, o / 2) % q;
    lemma_small_mod(x as nat, q as nat);
    assert((1 * x) % q == 1);
    assert(((q - 1) * y) % q == 1);
    assert((q - 1) * y == q * (y - 1) + (q - y)) by (nonlinear_arith);
    lemma_mod_multiples_vanish(y - 1, q - y, q);
    if y == 0 {
        lemma_small_mod(0, q as nat);
        assert(((q - 1) * 0) % q == 0);
    } else {
        lemma_small_mod((q - y) as nat, q as nat);
    }
}

/// `x ≡ 1` makes every power `≡ 1`.
pub proof fn lemma_pow_of_one_pub(x: int, k: nat, q: int)
    requires
        q > 1,
        x % q == 1,
    ensures
        pow(x, k) % q == 1,
{
    lemma_pow_of_one(x, k, q);
}

/// `x ≡ 1` makes every power `≡ 1`.
proof fn lemma_pow_of_one(x: int, k: nat, q: int)
    requires
        q > 1,
        x % q == 1,
    ensures
        pow(x, k) % q == 1,
{
    lemma_pow_mod_noop(x, k, q);
    vstd::arithmetic::power::lemma_pow1(1);
    lemma_one_pow(k);
    lemma_small_mod(1, q as nat);
}

proof fn lemma_one_pow(k: nat)
    ensures
        pow(1, k) == 1,
    decreases k,
{
    if k == 0 {
        lemma_pow0(1);
    } else {
        lemma_one_pow((k - 1) as nat);
        lemma_pow_adds(1, (k - 1) as nat, 1);
        lemma_pow1(1);
    }
}

/// `r^a · rinv^a ≡ 1` when `r · rinv ≡ 1`.
proof fn lemma_pow_inverse(r: int, rinv: int, a: nat, q: int)
    requires
        q > 1,
        (r * rinv) % q == 1,
    ensures
        (pow(r, a) * pow(rinv, a)) % q == 1,
{
    vstd::arithmetic::power::lemma_pow_distributes(r, rinv, a);
    lemma_pow_of_one(r * rinv, a, q);
}

/// `r^m ≡ 1` and `r^k ≡ 1` give `r^(m mod k) ≡ 1`, hence `r^gcd ≡ 1`.
proof fn lemma_pow_gcd(r: int, a: nat, b: nat, q: int)
    requires
        q > 1,
        pow(r, a) % q == 1,
        pow(r, b) % q == 1,
    ensures
        pow(r, gcd(a, b)) % q == 1,
    decreases b,
{
    if b > 0 {
        let d = a / b;
        let m = a % b;
        lemma_fundamental_div_mod(a as int, b as int);
        lemma_pow_multiplies(r, b, d);
        lemma_pow_of_one(pow(r, b), d, q);
        lemma_pow_mod_noop(pow(r, b), d, q);
        lemma_pow_adds(r, b * d, m);
        assert(a == b * d + m);
        // r^a = r^(b·d) · r^m ≡ r^m
        lemma_mul_mod_noop_general(pow(r, b * d), pow(r, m), q);
        lemma_small_mod(1, q as nat);
        lemma_mod_bound(pow(r, m), q);
        lemma_small_mod((pow(r, m) % q) as nat, q as nat);
        lemma_pow_gcd(r, b, m, q);
    }
}

/// An odd divisor of a power of two is one.
proof fn lemma_odd_divisor_of_pow2(n: nat, c: nat, y: nat)
    requires
        is_pow2(n),
        c % 2 == 1,
        n == c * y,
    ensures
        c == 1,
    decreases n,
{
    if n == 1 {
        assert(c * y == 1);
        assert(c == 1) by (nonlinear_arith)
            requires c * y == 1, c >= 1;
    } else {
        // n even: c·y even with c odd forces y even
        assert(y % 2 == 0) by {
            lemma_fundamental_div_mod(c as int, 2);
            lemma_fundamental_div_mod(y as int, 2);
            if y % 2 == 1 {
                let c2 = c / 2;
                let y2 = y / 2;
                assert(c * y == 2 * (2 * c2 * y2 + c2 + y2) + 1) by (nonlinear_arith)
                    requires c == 2 * c2 + 1, y == 2 * y2 + 1;
                lemma_mod_multiples_vanish((2 * c2 * y2 + c2 + y2) as int, 1, 2);
            }
        }
        lemma_fundamental_div_mod(y as int, 2);
        assert(n / 2 == c * (y / 2)) by (nonlinear_arith)
            requires n == c * y, y == 2 * (y / 2);
        lemma_odd_divisor_of_pow2(n / 2, c, y / 2);
    }
}

/// A divisor `g < n` of a power of two `n` divides `n / 2`.
proof fn lemma_proper_divisor_of_pow2(n: nat, g: nat)
    requires
        is_pow2(n),
        0 < g < n,
        n % g == 0,
    ensures
        n % 2 == 0,
        (n / 2) % g == 0,
{
    lemma_fundamental_div_mod(n as int, g as int);
    let c = n / g;
    assert(n == g * c);
    assert(c >= 2) by (nonlinear_arith)
        requires n == g * c, g < n, g > 0;
    if c % 2 == 1 {
        assert(n == c * g) by (nonlinear_arith) requires n == g * c;
        lemma_odd_divisor_of_pow2(n, c, g);
    }
    lemma_fundamental_div_mod(c as int, 2);
    let c2 = c / 2;
    assert(n == 2 * (g * c2)) by (nonlinear_arith) requires n == g * c, c == 2 * c2;
    lemma_mod_multiples_vanish((g * c2) as int, 0, 2);
    lemma_small_mod(0, 2);
    assert(n / 2 == g * c2);
    lemma_mod_multiples_vanish(c2 as int, 0, g as int);
    lemma_small_mod(0, g);
    assert((g * c2) % g == 0) by {
        lemma_mul_is_commutative(g as int, c2 as int);
    }
}

/// A root of order a power of two `o`, with `r^(o/2) ≡ -1`, has no smaller power `≡ 1`.
pub proof fn lemma_no_smaller_order(r: int, o: nat, m: nat, q: int)
    requires
        q > 2,
        is_pow2(o),
        o >= 2,
        pow(r, o) % q == 1,
        pow(r, o / 2) % q == q - 1,
        0 < m < o,
    ensures
        pow(r, m) % q != 1,
{
    if pow(r, m) % q == 1 {
        lemma_pow_gcd(r, o, m, q);
        lemma_gcd_divides(o, m);
        let g = gcd(o, m);
        if g >= o {
            lemma_small_mod(m, g);
            assert(false);
        }
        assert(g <= m) by {
            if g > m {
                lemma_small_mod(m, g);
            }
        }
        lemma_proper_divisor_of_pow2(o, g);
        lemma_fundamental_div_mod((o / 2) as int, g as int);
        let c = (o / 2) / g;
        lemma_pow_multiplies(r, g, c);
        lemma_pow_of_one(pow(r, g), c, q);
        assert(g * c == o / 2);
    }
}

/// `Σ_{k<n} r^(point_exp(k)·d) ≡ 0` for `0 < d < n`, with `r` of the transform's order.
#[verifier::spinoff_prover]
proof fn lemma_root_sum_vanishes(r: int, neg: bool, n: nat, d: nat, q: int)
    requires
        is_prime(q),
        q > 2,
        is_pow2(n),
        0 < d < n,
        pow(r, if neg { 2 * n } else { n }) % q == 1,
        pow(r, (if neg { 2 * n } else { n }) / 2) % q == q - 1,
    ensures
        sum(|k: int| pow(r, (point_exp(k, neg) * d) as nat), n) % q == 0,
{
    let o: nat = if neg { 2 * n } else { n };
    let step: nat = if neg { 2 * d } else { d };
    let lead: nat = if neg { d } else { 0 };
    assert(is_pow2(o)) by {
        if neg {
            assert((2 * n) / 2 == n);
            assert((2 * n) % 2 == 0);
        }
    }
    let w = pow(r, step);
    // every term is r^lead · w^k
    assert forall|k: int| 0 <= k < n implies #[trigger] pow(r, (point_exp(k, neg) * d) as nat)
        == pow(r, lead) * pow(w, k as nat) by {
        lemma_pow_multiplies(r, step, k as nat);
        lemma_pow_adds(r, lead, step * k as nat);
        assert((point_exp(k, neg) * d) as nat == lead + step * (k as nat)) by (nonlinear_arith)
            requires
                point_exp(k, neg) == if neg { 2 * k + 1 } else { k },
                k >= 0,
                step == if neg { 2 * d } else { d },
                lead == if neg { d } else { 0 },
        ;
    }
    let terms = |k: int| pow(r, (point_exp(k, neg) * d) as nat);
    let prods = |k: int| pow(r, lead) * pow(w, k as nat);
    let powers = |k: int| pow(w, k as nat);
    let c = pow(r, lead);
    lemma_sum_ext(terms, prods, n);
    lemma_sum_scale(powers, c, n);
    lemma_sum_ext(|k: int| c * powers(k), prods, n);
    let s = sum(powers, n);
    assert(sum(terms, n) == c * s);
    // (w - 1)·s = w^n - 1 ≡ 0, and w ≢ 1
    lemma_geometric(w, n);
    lemma_pow_multiplies(r, step, n);
    assert(step * n == o * d) by (nonlinear_arith)
        requires step == if neg { 2 * d } else { d }, o == if neg { 2 * n } else { n };
    lemma_pow_multiplies(r, o, d);
    lemma_pow_of_one(pow(r, o), d, q);
    lemma_mul_is_commutative(step as int, n as int);
    assert(pow(w, n) % q == 1);
    assert(step < o && step > 0);
    lemma_no_smaller_order(r, o, step, q);
    assert((w - 1) % q != 0) by {
        if (w - 1) % q == 0 {
            lemma_fundamental_div_mod(w - 1, q);
            lemma_mod_multiples_vanish((w - 1) / q, 1, q);
            lemma_small_mod(1, q as nat);
        }
    }
    assert(((w - 1) * s) % q == 0) by {
        lemma_sub_mod_noop(pow(w, n), 1, q);
        lemma_small_mod(1, q as nat);
        lemma_small_mod(0, q as nat);
    }
    lemma_prime_cancel(w - 1, s, q);
    lemma_mul_mod_noop_general(c, s, q);
    lemma_small_mod(0, q as nat);
    assert((c * s) % q == 0);
}

/// The inner sum over the points: `Σ_k root^(e(k)·t) · root_inv^(e(k)·j)` is
/// `n` when `t = j` and `0` otherwise, modulo `q`.
#[verifier::spinoff_prover]
proof fn lemma_orthogonality(ctx: NTT, t: int, j: int)
    requires
        ctx.wf(),
        0 <= t < ctx.n,
        0 <= j < ctx.n,
    ensures
        sum(|k: int| pow(ctx.root as int, (point_exp(k, ctx.negacyclic()) * t) as nat)
            * pow(ctx.root_inv as int, (point_exp(k, ctx.negacyclic()) * j) as nat), ctx.n as nat) % (ctx.q as int)
            == (if t == j { ctx.n as int } else { 0 }) % (ctx.q as int),
{
    let q = ctx.q as int;
    let n = ctx.n as nat;
    let r = ctx.root as int;
    let ri = ctx.root_inv as int;
    let neg = ctx.negacyclic();
    let o: nat = ctx.order() as nat;
    let e = |k: int| point_exp(k, neg);
    let g = |k: int| pow(r, (point_exp(k, neg) * t) as nat) * pow(ri, (point_exp(k, neg) * j) as nat);
    assert(q > 1);
    if t == j {
        let one = |k: int| 1int;
        assert forall|k: int| 0 <= k < n implies #[trigger] g(k) % q == one(k) % q by {
            lemma_pow_inverse(r, ri, (point_exp(k, neg) * j) as nat, q);
            lemma_small_mod(1, q as nat);
        }
        lemma_sum_mod(g, one, n, q);
        lemma_sum_const(1, n);
    } else {
        assert(n >= 2);
        assert(o >= 2);
        assert(q > 2) by {
            if q <= 2 {
                lemma_small_mod((q - 1) as nat, o);
            }
        }
        assert(o == if neg { 2 * n } else { n });
        let (base, d) = if t > j { (r, (t - j) as nat) } else { (ri, (j - t) as nat) };
        // the other root has the same order
        assert(pow(ri, o) % q == 1 && pow(ri, o / 2) % q == q - 1) by {
            lemma_pow_inverse(r, ri, o, q);
            lemma_pow_inverse(r, ri, o / 2, q);
            lemma_mul_mod_noop_general(pow(r, o), pow(ri, o), q);
            lemma_mul_mod_noop_general(pow(r, o / 2), pow(ri, o / 2), q);
            lemma_mod_bound(pow(ri, o), q);
            lemma_mod_bound(pow(ri, o / 2), q);
            let x = pow(ri, o) % q;
            let y = pow(ri, o / 2) % q;
            lemma_small_mod(x as nat, q as nat);
            assert((1 * x) % q == 1);
            // (q - 1)·y ≡ 1 forces y = q - 1
            assert(((q - 1) * y) % q == 1);
            assert((q - 1) * y == q * (y - 1) + (q - y)) by (nonlinear_arith);
            lemma_mod_multiples_vanish(y - 1, q - y, q);
            if y == 0 {
                lemma_small_mod(0, q as nat);
                assert(((q - 1) * 0) % q == 0);
            } else {
                lemma_small_mod((q - y) as nat, q as nat);
            }
        }
        // each term collapses to base^(e(k)·d)
        let target = |k: int| pow(base, (point_exp(k, neg) * d) as nat);
        assert forall|k: int| 0 <= k < n implies #[trigger] g(k) % q == target(k) % q by {
            let ek = point_exp(k, neg);
            assert(ek >= 0);
            let a = (ek * t) as nat;
            let b = (ek * j) as nat;
            if t > j {
                let c = (ek * d) as nat;
                assert(a == c + b) by (nonlinear_arith) requires a == ek * t, b == ek * j, c == ek * d, d == t - j, ek >= 0;
                lemma_pow_adds(r, c, b);
                lemma_pow_inverse(r, ri, b, q);
                assert(g(k) == pow(r, c) * (pow(r, b) * pow(ri, b))) by {
                    lemma_mul_is_associative(pow(r, c), pow(r, b), pow(ri, b));
                }
                lemma_mul_mod_noop_general(pow(r, c), pow(r, b) * pow(ri, b), q);
                lemma_mul_mod_noop_general(pow(r, c), 1, q);
            } else {
                let c = (ek * d) as nat;
                assert(b == c + a) by (nonlinear_arith) requires a == ek * t, b == ek * j, c == ek * d, d == j - t, ek >= 0;
                lemma_pow_adds(ri, c, a);
                lemma_pow_inverse(r, ri, a, q);
                assert(g(k) == pow(ri, c) * (pow(r, a) * pow(ri, a))) by {
                    lemma_mul_is_commutative(pow(ri, c), pow(ri, a));
                    lemma_mul_is_associative(pow(r, a), pow(ri, a), pow(ri, c));
                    lemma_mul_is_commutative(pow(r, a) * pow(ri, a), pow(ri, c));
                    lemma_mul_is_associative(pow(ri, c), pow(r, a), pow(ri, a));
                }
                lemma_mul_mod_noop_general(pow(ri, c), pow(r, a) * pow(ri, a), q);
                lemma_mul_mod_noop_general(pow(ri, c), 1, q);
            }
        }
        lemma_sum_mod(g, target, n, q);
        lemma_root_sum_vanishes(base, neg, n, d, q);
        lemma_small_mod(0, q as nat);
    }
}

/// The inverse transform undoes the forward transform: for every valid
/// context and every vector of `n` residues, `from_ntt(to_ntt(v)) = v`.
pub proof fn lemma_ntt_round_trip(ctx: NTT, v: Seq<int>)
    requires
        ctx.wf(),
        v.len() == ctx.n,
        forall|i: int| 0 <= i < v.len() ==> 0 <= #[trigger] v[i] < ctx.q,
    ensures
        forall|j: int| 0 <= j < ctx.n ==> #[trigger] ctx.inverse_spec(ctx.forward_seq(v), j) == v[j],
{
    assert forall|j: int| 0 <= j < ctx.n implies #[trigger] ctx.inverse_spec(ctx.forward_seq(v), j) == v[j] by {
        lemma_round_trip_at(ctx, v, j);
    }
}

#[verifier::spinoff_prover]
proof fn lemma_round_trip_at(ctx: NTT, v: Seq<int>, j: int)
    requires
        ctx.wf(),
        v.len() == ctx.n,
        forall|i: int| 0 <= i < v.len() ==> 0 <= #[trigger] v[i] < ctx.q,
        0 <= j < ctx.n,
    ensures
        ctx.inverse_spec(ctx.forward_seq(v), j) == v[j],
{
    let q = ctx.q as int;
    let n = ctx.n as nat;
    let r = ctx.root as int;
    let ri = ctx.root_inv as int;
    let neg = ctx.negacyclic();
    let w = ctx.forward_seq(v);
    let a = (point_exp(0, neg) * j) as nat;
    let b = ((point_exp(1, neg) - point_exp(0, neg)) * j) as nat;
    // exponents of the inverse sum are e(k)·j
    let pk = |k: int| pow(ri, (point_exp(k, neg) * j) as nat);
    let fk = |k: int| lin_sum(v, r, 0, point_exp(k, neg) as nat, n);
    lemma_lin_sum_is_sum(w, ri, a, b, n);
    let s0 = |k: int| w[k] * pow(ri, (a + b * k) as nat);
    let s1 = |k: int| fk(k) * pk(k);
    assert forall|k: int| 0 <= k < n implies #[trigger] s0(k) % q == s1(k) % q by {
        assert((a + b * k) as nat == (point_exp(k, neg) * j) as nat) by (nonlinear_arith)
            requires
                a == point_exp(0, neg) * j,
                b == (point_exp(1, neg) - point_exp(0, neg)) * j,
                point_exp(k, neg) == if neg { 2 * k + 1 } else { k },
                point_exp(0, neg) == if neg { 1int } else { 0int },
                point_exp(1, neg) == if neg { 3int } else { 1int },
                j >= 0, k >= 0;
        assert(w[k] == fk(k) % q);
        lemma_mul_mod_noop_general(fk(k), pk(k), q);
    }
    lemma_sum_mod(s0, s1, n, q);
    // expand the forward sums and exchange the order
    let h = |k: int, t: int| v[t] * pow(r, (point_exp(k, neg) * t) as nat) * pk(k);
    let rows = |k: int| sum(|t: int| h(k, t), n);
    assert forall|k: int| 0 <= k < n implies #[trigger] s1(k) == rows(k) by {
        lemma_lin_sum_is_sum(v, r, 0, point_exp(k, neg) as nat, n);
        let inner = |t: int| v[t] * pow(r, (0 + (point_exp(k, neg) as nat) * t) as nat);
        lemma_sum_scale(inner, pk(k), n);
        let scaled = |t: int| pk(k) * inner(t);
        let hk = |t: int| h(k, t);
        assert forall|t: int| 0 <= t < n implies #[trigger] scaled(t) == hk(t) by {
            assert((0 + (point_exp(k, neg) as nat) * t) as nat == (point_exp(k, neg) * t) as nat);
            lemma_mul_is_commutative(pk(k), inner(t));
        }
        lemma_sum_ext(scaled, hk, n);
        lemma_sum_ext(|t: int| pk(k) * inner(t), scaled, n);
        lemma_sum_ext(|t: int| h(k, t), hk, n);
        lemma_mul_is_commutative(fk(k), pk(k));
    }
    lemma_sum_ext(s1, rows, n);
    lemma_sum_swap(h, n, n);
    // each column is v_t times the orthogonality sum
    let gt = |t: int| sum(|k: int| pow(r, (point_exp(k, neg) * t) as nat) * pk(k), n);
    let cols = |t: int| sum(|k: int| h(k, t), n);
    let weighted = |t: int| v[t] * gt(t);
    assert forall|t: int| 0 <= t < n implies #[trigger] cols(t) == weighted(t) by {
        let col = |k: int| pow(r, (point_exp(k, neg) * t) as nat) * pk(k);
        lemma_sum_scale(col, v[t], n);
        let ht = |k: int| h(k, t);
        let vc = |k: int| v[t] * col(k);
        assert forall|k: int| 0 <= k < n implies #[trigger] ht(k) == vc(k) by {
            lemma_mul_is_associative(v[t], pow(r, (point_exp(k, neg) * t) as nat), pk(k));
        }
        lemma_sum_ext(ht, vc, n);
        lemma_sum_ext(|k: int| h(k, t), ht, n);
        lemma_sum_ext(|k: int| v[t] * col(k), vc, n);
        lemma_sum_ext(|k: int| pow(r, (point_exp(k, neg) * t) as nat) * pk(k), col, n);
    }
    lemma_sum_ext(cols, weighted, n);
    lemma_sum_ext(|t: int| sum(|k: int| h(k, t), n), cols, n);
    let delta = |t: int| v[t] * (if t == j { n as int } else { 0 });
    assert forall|t: int| 0 <= t < n implies #[trigger] weighted(t) % q == delta(t) % q by {
        lemma_orthogonality(ctx, t, j);
        lemma_sum_ext(|k: int| pow(ctx.root as int, (point_exp(k, ctx.negacyclic()) * t) as nat)
            * pow(ctx.root_inv as int, (point_exp(k, ctx.negacyclic()) * j) as nat),
            |k: int| pow(r, (point_exp(k, neg) * t) as nat) * pk(k), n);
        lemma_mul_mod_noop_general(v[t], gt(t), q);
        lemma_mul_mod_noop_general(v[t], if t == j { n as int } else { 0 }, q);
    }
    lemma_sum_mod(weighted, delta, n, q);
    assert forall|t: int| 0 <= t < n && t != j implies #[trigger] delta(t) == 0 by {}
    lemma_sum_single(delta, n, j);
    // so the inverse sum is ≡ n·v_j, and n⁻¹·n·v_j ≡ v_j
    let ls = lin_sum(w, ri, a, b, n);
    assert(ls % q == (v[j] * n) % q);
    lemma_mul_mod_noop_general(ctx.n_inv as int, ls, q);
    lemma_mul_mod_noop_general(ctx.n_inv as int, v[j] * n, q);
    assert(ctx.n_inv * (v[j] * n) == v[j] * (n * ctx.n_inv)) by (nonlinear_arith);
    lemma_mul_mod_noop_general(v[j], n * ctx.n_inv, q);
    lemma_mul_mod_noop_general(v[j], 1, q);
    lemma_small_mod(v[j] as nat, q as nat);
}

/// The sum over the outputs: `Σ_j root_inv^(e(t)·j) · root^(e(k)·j)` is `n`
/// when `t = k` and `0` otherwise, modulo `q`.
#[verifier::spinoff_prover]
proof fn lemma_dual_orthogonality(ctx: NTT, t: int, k: int)
    requires
        ctx.wf(),
        0 <= t < ctx.n,
        0 <= k < ctx.n,
    ensures
        sum(|j: int| pow(ctx.root_inv as int, (point_exp(t, ctx.negacyclic()) * j) as nat)
            * pow(ctx.root as int, (point_exp(k, ctx.negacyclic()) * j) as nat), ctx.n as nat) % (ctx.q as int)
            == (if t == k { ctx.n as int } else { 0 }) % (ctx.q as int),
{
    let q = ctx.q as int;
    let n = ctx.n as nat;
    let r = ctx.root as int;
    let ri = ctx.root_inv as int;
    let neg = ctx.negacyclic();
    let o: nat = ctx.order() as nat;
    let g = |j: int| pow(ri, (point_exp(t, neg) * j) as nat) * pow(r, (point_exp(k, neg) * j) as nat);
    assert(q > 1);
    if t == k {
        let one = |j: int| 1int;
        assert forall|j: int| 0 <= j < n implies #[trigger] g(j) % q == one(j) % q by {
            let x = (point_exp(k, neg) * j) as nat;
            lemma_pow_inverse(r, ri, x, q);
            lemma_mul_is_commutative(pow(r, x), pow(ri, x));
            lemma_small_mod(1, q as nat);
        }
        lemma_sum_mod(g, one, n, q);
        lemma_sum_const(1, n);
    } else {
        assert(n >= 2);
        assert(o >= 2);
        assert(q > 2) by {
            if q <= 2 {
                lemma_small_mod((q - 1) as nat, o);
            }
        }
        let step: nat = if neg { 2 } else { 1 };
        assert(o == step * n);
        assert(n % 2 == 0) by { if n % 2 == 1 { assert(!is_pow2(n)); } }
        assert(step * (n / 2) == o / 2);
        lemma_inverse_root_order(ctx);
        let (base, d) = if k > t { (pow(r, step), (k - t) as nat) } else { (pow(ri, step), (t - k) as nat) };
        assert(pow(base, n) % q == 1 && pow(base, n / 2) % q == q - 1) by {
            if k > t {
                lemma_pow_multiplies(r, step, n);
                lemma_pow_multiplies(r, step, n / 2);
            } else {
                lemma_pow_multiplies(ri, step, n);
                lemma_pow_multiplies(ri, step, n / 2);
            }
        }
        let target = |j: int| pow(base, (point_exp(j, false) * d) as nat);
        assert forall|j: int| 0 <= j < n implies #[trigger] g(j) % q == target(j) % q by {
            let et = point_exp(t, neg);
            let ek = point_exp(k, neg);
            assert(et >= 0 && ek >= 0);
            let a = (et * j) as nat;
            let b = (ek * j) as nat;
            assert(point_exp(j, false) == j);
            if k > t {
                let c = step * (d * j as nat);
                assert(b == a + c) by (nonlinear_arith)
                    requires a == et * j, b == ek * j, c == step * (d * j),
                        ek == et + step * d, j >= 0, et >= 0;
                lemma_pow_adds(r, a, c);
                lemma_pow_multiplies(r, step, d * j as nat);
                assert((point_exp(j, false) * d) as nat == d * j as nat) by (nonlinear_arith)
                    requires point_exp(j, false) == j, j >= 0;
                lemma_pow_inverse(r, ri, a, q);
                assert(g(j) == pow(r, c) * (pow(r, a) * pow(ri, a))) by {
                    lemma_mul_is_commutative(pow(r, a), pow(r, c));
                    lemma_mul_is_commutative(pow(ri, a), pow(r, a) * pow(r, c));
                    lemma_mul_is_associative(pow(r, c), pow(r, a), pow(ri, a));
                    lemma_mul_is_associative(pow(ri, a), pow(r, c), pow(r, a));
                    lemma_mul_is_commutative(pow(ri, a), pow(r, c));
                    lemma_mul_is_associative(pow(r, c), pow(ri, a), pow(r, a));
                    lemma_mul_is_commutative(pow(ri, a), pow(r, a));
                }
                lemma_mul_mod_noop_general(pow(r, c), pow(r, a) * pow(ri, a), q);
                lemma_mul_mod_noop_general(pow(r, c), 1, q);
            } else {
                let c = step * (d * j as nat);
                assert(a == b + c) by (nonlinear_arith)
                    requires a == et * j, b == ek * j, c == step * (d * j),
                        et == ek + step * d, j >= 0, ek >= 0;
                lemma_pow_adds(ri, b, c);
                lemma_pow_multiplies(ri, step, d * j as nat);
                assert((point_exp(j, false) * d) as nat == d * j as nat) by (nonlinear_arith)
                    requires point_exp(j, false) == j, j >= 0;
                lemma_pow_inverse(r, ri, b, q);
                assert(g(j) == pow(ri, c) * (pow(r, b) * pow(ri, b))) by {
                    lemma_mul_is_commutative(pow(ri, b), pow(ri, c));
                    lemma_mul_is_associative(pow(ri, c), pow(ri, b), pow(r, b));
                    lemma_mul_is_commutative(pow(ri, b), pow(r, b));
                }
                lemma_mul_mod_noop_general(pow(ri, c), pow(r, b) * pow(ri, b), q);
                lemma_mul_mod_noop_general(pow(ri, c), 1, q);
            }
        }
        lemma_sum_mod(g, target, n, q);
        lemma_root_sum_vanishes(base, false, n, d, q);
        lemma_sum_ext(|j: int| pow(base, (point_exp(j, false) * d) as nat), target, n);
        lemma_small_mod(0, q as nat);
    }
}

/// The transform of the constant one is one at every point.
pub proof fn lemma_forward_of_one(ctx: NTT, one: Seq<int>)
    requires
        ctx.wf(),
        one == seq![1int % (ctx.q as int)],
    ensures
        forall|k: int| 0 <= k < ctx.n ==> #[trigger] ctx.forward_seq(crate::rq::padded(one, ctx.n as nat))[k] == 1,
{
    let q = ctx.q as int;
    let n = ctx.n as nat;
    let v = crate::rq::padded(one, n);
    assert(q > 1);
    lemma_small_mod(1, q as nat);
    assert forall|k: int| 0 <= k < n implies #[trigger] ctx.forward_seq(v)[k] == 1 by {
        let e = point_exp(k, ctx.negacyclic()) as nat;
        lemma_lin_sum_is_sum(v, ctx.root as int, 0, e, n);
        let f = |t: int| v[t] * pow(ctx.root as int, (0 + e * t) as nat);
        assert forall|t: int| 0 <= t < n && t != 0 implies #[trigger] f(t) == 0 by {
            assert(v[t] == 0);
        }
        lemma_sum_single(f, n, 0);
        lemma_sum_ext(|t: int| v[t] * pow(ctx.root as int, (0 + e * t) as nat), f, n);
        lemma_pow0(ctx.root as int);
        assert(v[0] == 1);
        assert((0 + e * 0) as nat == 0);
    }
}

/// A factor of a product `≡ 1` modulo a prime is a unit.
pub proof fn lemma_unit_factor(a: int, b: int, q: int)
    requires
        is_prime(q),
        0 <= a < q,
        (a * b) % q == 1,
    ensures
        crate::zq::coprime(a, q),
{
    if a == 0 {
        lemma_small_mod(0, q as nat);
        assert(0 * b == 0);
    } else {
        lemma_prime_units(q, a);
    }
}

/// The whole inverse transform of `w`.
pub open spec fn inverse_seq(ctx: NTT, w: Seq<int>) -> Seq<int> {
    Seq::new(ctx.n as nat, |j: int| ctx.inverse_spec(w, j))
}

/// The forward transform undoes the inverse transform: for every vector of
/// `n` residues `w`, `to_ntt(from_ntt(w)) = w`.
pub proof fn lemma_ntt_round_trip_dual(ctx: NTT, w: Seq<int>)
    requires
        ctx.wf(),
        w.len() == ctx.n,
        forall|i: int| 0 <= i < w.len() ==> 0 <= #[trigger] w[i] < ctx.q,
    ensures
        forall|k: int| 0 <= k < ctx.n ==> #[trigger] ctx.forward_spec(inverse_seq(ctx, w), k) == w[k],
{
    assert forall|k: int| 0 <= k < ctx.n implies #[trigger] ctx.forward_spec(inverse_seq(ctx, w), k) == w[k] by {
        lemma_dual_round_trip_at(ctx, w, k);
    }
}

#[verifier::spinoff_prover]
proof fn lemma_dual_round_trip_at(ctx: NTT, w: Seq<int>, k: int)
    requires
        ctx.wf(),
        w.len() == ctx.n,
        forall|i: int| 0 <= i < w.len() ==> 0 <= #[trigger] w[i] < ctx.q,
        0 <= k < ctx.n,
    ensures
        ctx.forward_spec(inverse_seq(ctx, w), k) == w[k],
{
    let q = ctx.q as int;
    let n = ctx.n as nat;
    let r = ctx.root as int;
    let ri = ctx.root_inv as int;
    let neg = ctx.negacyclic();
    let ninv = ctx.n_inv as int;
    let iv = inverse_seq(ctx, w);
    let ek = point_exp(k, neg);
    let pj = |j: int| pow(r, (ek * j) as nat);
    // L(j): the inverse sum before scaling
    let lj = |j: int| lin_sum(w, ri, (point_exp(0, neg) * j) as nat, ((point_exp(1, neg) - point_exp(0, neg)) * j) as nat, n);
    lemma_lin_sum_is_sum(iv, r, 0, ek as nat, n);
    let s0 = |j: int| iv[j] * pow(r, (0 + (ek as nat) * j) as nat);
    let s2 = |j: int| lj(j) * pj(j);
    let s1 = |j: int| ninv * s2(j);
    assert forall|j: int| 0 <= j < n implies #[trigger] s0(j) % q == s1(j) % q by {
        assert((0 + (ek as nat) * j) as nat == (ek * j) as nat);
        assert(iv[j] == (ninv * lj(j)) % q);
        lemma_mul_mod_noop_general(ninv * lj(j), pj(j), q);
        assert(ninv * lj(j) * pj(j) == ninv * (lj(j) * pj(j))) by (nonlinear_arith);
    }
    lemma_sum_mod(s0, s1, n, q);
    lemma_sum_scale(s2, ninv, n);
    lemma_sum_ext(|j: int| ninv * s2(j), s1, n);
    // expand L(j) and exchange the order
    let h = |j: int, t: int| w[t] * pow(ri, (point_exp(t, neg) * j) as nat) * pj(j);
    let rows = |j: int| sum(|t: int| h(j, t), n);
    assert forall|j: int| 0 <= j < n implies #[trigger] s2(j) == rows(j) by {
        let a = (point_exp(0, neg) * j) as nat;
        let b = ((point_exp(1, neg) - point_exp(0, neg)) * j) as nat;
        lemma_lin_sum_is_sum(w, ri, a, b, n);
        let inner = |t: int| w[t] * pow(ri, (a + b * t) as nat);
        lemma_sum_scale(inner, pj(j), n);
        let scaled = |t: int| pj(j) * inner(t);
        let hj = |t: int| h(j, t);
        assert forall|t: int| 0 <= t < n implies #[trigger] scaled(t) == hj(t) by {
            assert((a + b * t) as nat == (point_exp(t, neg) * j) as nat) by (nonlinear_arith)
                requires
                    a == point_exp(0, neg) * j,
                    b == (point_exp(1, neg) - point_exp(0, neg)) * j,
                    point_exp(t, neg) == if neg { 2 * t + 1 } else { t },
                    point_exp(0, neg) == if neg { 1int } else { 0int },
                    point_exp(1, neg) == if neg { 3int } else { 1int },
                    j >= 0, t >= 0;
            lemma_mul_is_commutative(pj(j), inner(t));
        }
        lemma_sum_ext(scaled, hj, n);
        lemma_sum_ext(|t: int| pj(j) * inner(t), scaled, n);
        lemma_sum_ext(|t: int| h(j, t), hj, n);
        lemma_mul_is_commutative(lj(j), pj(j));
    }
    lemma_sum_ext(s2, rows, n);
    lemma_sum_swap(h, n, n);
    let gt = |t: int| sum(|j: int| pow(ri, (point_exp(t, neg) * j) as nat) * pj(j), n);
    let cols = |t: int| sum(|j: int| h(j, t), n);
    let weighted = |t: int| w[t] * gt(t);
    assert forall|t: int| 0 <= t < n implies #[trigger] cols(t) == weighted(t) by {
        let col = |j: int| pow(ri, (point_exp(t, neg) * j) as nat) * pj(j);
        lemma_sum_scale(col, w[t], n);
        let ht = |j: int| h(j, t);
        let wc = |j: int| w[t] * col(j);
        assert forall|j: int| 0 <= j < n implies #[trigger] ht(j) == wc(j) by {
            lemma_mul_is_associative(w[t], pow(ri, (point_exp(t, neg) * j) as nat), pj(j));
        }
        lemma_sum_ext(ht, wc, n);
        lemma_sum_ext(|j: int| h(j, t), ht, n);
        lemma_sum_ext(|j: int| w[t] * col(j), wc, n);
        lemma_sum_ext(|j: int| pow(ri, (point_exp(t, neg) * j) as nat) * pj(j), col, n);
    }
    lemma_sum_ext(cols, weighted, n);
    lemma_sum_ext(|t: int| sum(|j: int| h(j, t), n), cols, n);
    let delta = |t: int| w[t] * (if t == k { n as int } else { 0 });
    assert forall|t: int| 0 <= t < n implies #[trigger] weighted(t) % q == delta(t) % q by {
        lemma_dual_orthogonality(ctx, t, k);
        lemma_sum_ext(|j: int| pow(ctx.root_inv as int, (point_exp(t, ctx.negacyclic()) * j) as nat)
            * pow(ctx.root as int, (point_exp(k, ctx.negacyclic()) * j) as nat),
            |j: int| pow(ri, (point_exp(t, neg) * j) as nat) * pj(j), n);
        lemma_mul_mod_noop_general(w[t], gt(t), q);
        lemma_mul_mod_noop_general(w[t], if t == k { n as int } else { 0 }, q);
    }
    lemma_sum_mod(weighted, delta, n, q);
    assert forall|t: int| 0 <= t < n && t != k implies #[trigger] delta(t) == 0 by {}
    lemma_sum_single(delta, n, k);
    // the forward sum is ≡ n⁻¹·n·w_k ≡ w_k
    let total = sum(s2, n);
    assert(total % q == (w[k] * n) % q);
    lemma_mul_mod_noop_general(ninv, total, q);
    lemma_mul_mod_noop_general(ninv, w[k] * n, q);
    assert(ninv * (w[k] * n) == w[k] * (n * ctx.n_inv)) by (nonlinear_arith)
        requires ninv == ctx.n_inv as int;
    lemma_mul_mod_noop_general(w[k], n * ctx.n_inv, q);
    lemma_mul_mod_noop_general(w[k], 1, q);
    lemma_small_mod(w[k] as nat, q as nat);
}

/// `Σ_{k < L} coef(s, k) · x^k`: `s` evaluated at `x`, reading `L` coefficients.
pub open spec fn eval_upto(s: Seq<int>, x: int, l: nat) -> int {
    sum(|k: int| coef(s, k) * pow(x, k as nat), l)
}

/// Reading past the last coefficient adds nothing.
proof fn lemma_eval_extend(s: Seq<int>, x: int, l: nat, m: nat)
    requires
        s.len() <= l <= m,
    ensures
        eval_upto(s, x, m) == eval_upto(s, x, l),
    decreases m,
{
    if m > l {
        lemma_eval_extend(s, x, l, (m - 1) as nat);
        assert(coef(s, m - 1) == 0);
    }
}

/// `Σ_{k < L} coef(b, k - m) · x^k = x^m · Σ_{j < L - m} coef(b, j) · x^j`.
proof fn lemma_eval_shift(b: Seq<int>, x: int, m: nat, l: nat)
    requires
        m <= l,
    ensures
        sum(|k: int| coef(b, k - m) * pow(x, k as nat), l) == pow(x, m) * eval_upto(b, x, (l - m) as nat),
    decreases l,
{
    let f = |k: int| coef(b, k - m) * pow(x, k as nat);
    if l == m {
        assert forall|k: int| 0 <= k < l implies #[trigger] f(k) == 0 by {
            assert(coef(b, k - m) == 0);
        }
        lemma_sum_zero(f, l);
        assert(eval_upto(b, x, 0) == 0);
    } else {
        let l1 = (l - 1) as nat;
        lemma_eval_shift(b, x, m, l1);
        lemma_pow_adds(x, m, (l1 - m) as nat);
        assert(f(l1 as int) == pow(x, m) * (coef(b, l1 - m) * pow(x, (l1 - m) as nat))) by {
            assert((m + (l1 - m) as nat) as nat == l1);
            lemma_mul_is_associative(pow(x, m), coef(b, l1 - m), pow(x, (l1 - m) as nat));
            lemma_mul_is_commutative(pow(x, m), coef(b, l1 - m));
            lemma_mul_is_associative(coef(b, l1 - m), pow(x, m), pow(x, (l1 - m) as nat));
        }
        assert(eval_upto(b, x, (l - m) as nat) == eval_upto(b, x, (l1 - m) as nat)
            + coef(b, l1 - m) * pow(x, (l1 - m) as nat));
        lemma_mul_is_distributive_add(pow(x, m), eval_upto(b, x, (l1 - m) as nat),
            coef(b, l1 - m) * pow(x, (l1 - m) as nat));
    }
}

/// Evaluation turns the product of polynomials into the product of values:
/// `Σ_{k<L} conv(a, b, k) · x^k = a(x) · b(x)` once `L` covers the product.
proof fn lemma_eval_product(a: Seq<int>, b: Seq<int>, x: int, l: nat)
    requires
        l >= a.len() + b.len(),
    ensures
        sum(|k: int| conv(a, b, k) * pow(x, k as nat), l) == eval_upto(a, x, a.len()) * eval_upto(b, x, b.len()),
{
    lemma_eval_product_prefix(a, b, x, l, a.len());
    let f = |k: int| conv(a, b, k) * pow(x, k as nat);
    let g = |k: int| conv_sum(a, b, k, a.len()) * pow(x, k as nat);
    assert forall|k: int| 0 <= k < l implies #[trigger] f(k) == g(k) by {}
    lemma_sum_ext(f, g, l);
    lemma_sum_ext(|k: int| conv(a, b, k) * pow(x, k as nat), f, l);
    lemma_sum_ext(|k: int| conv_sum(a, b, k, a.len()) * pow(x, k as nat), g, l);
}

proof fn lemma_eval_product_prefix(a: Seq<int>, b: Seq<int>, x: int, l: nat, n: nat)
    requires
        n <= a.len(),
        l >= a.len() + b.len(),
    ensures
        sum(|k: int| conv_sum(a, b, k, n) * pow(x, k as nat), l) == eval_upto(a, x, n) * eval_upto(b, x, b.len()),
    decreases n,
{
    let e = |k: int| conv_sum(a, b, k, n) * pow(x, k as nat);
    if n == 0 {
        assert forall|k: int| 0 <= k < l implies #[trigger] e(k) == 0 by {}
        lemma_sum_zero(e, l);
    } else {
        let n1 = (n - 1) as nat;
        lemma_eval_product_prefix(a, b, x, l, n1);
        let e1 = |k: int| conv_sum(a, b, k, n1) * pow(x, k as nat);
        let c = coef(a, n1 as int);
        let sh = |k: int| coef(b, k - n1) * pow(x, k as nat);
        let t = |k: int| c * sh(k);
        let both = |k: int| e1(k) + t(k);
        assert forall|k: int| 0 <= k < l implies #[trigger] e(k) == both(k) by {
            assert(conv_sum(a, b, k, n) == conv_sum(a, b, k, n1) + c * coef(b, k - n1));
            lemma_mul_is_distributive_add(pow(x, k as nat), conv_sum(a, b, k, n1), c * coef(b, k - n1));
            lemma_mul_is_associative(c, coef(b, k - n1), pow(x, k as nat));
        }
        lemma_sum_ext(e, both, l);
        lemma_sum_add(e1, t, l);
        lemma_sum_ext(|k: int| e1(k) + t(k), both, l);
        lemma_sum_scale(sh, c, l);
        lemma_sum_ext(|k: int| c * sh(k), t, l);
        lemma_eval_shift(b, x, n1, l);
        lemma_eval_extend(b, x, b.len(), (l - n1) as nat);
        lemma_sum_ext(|k: int| conv_sum(a, b, k, n1) * pow(x, k as nat), e1, l);
        lemma_sum_ext(|k: int| coef(b, k - n1) * pow(x, k as nat), sh, l);
        let ea = eval_upto(a, x, n1);
        let eb = eval_upto(b, x, b.len());
        assert(eval_upto(a, x, n) == ea + c * pow(x, n1));
        assert(ea * eb + c * (pow(x, n1) * eb) == (ea + c * pow(x, n1)) * eb) by (nonlinear_arith);
    }
}

proof fn lemma_sum_diff3(f: spec_fn(int) -> int, g: spec_fn(int) -> int, h: spec_fn(int) -> int, n: nat)
    ensures
        sum(|k: int| f(k) - g(k) - h(k), n) == sum(f, n) - sum(g, n) - sum(h, n),
    decreases n,
{
    if n > 0 {
        lemma_sum_diff3(f, g, h, (n - 1) as nat);
    }
}

/// Coefficient-wise congruence survives evaluation.
proof fn lemma_eval_divides_difference(u: Seq<int>, qt: Seq<int>, phi: Seq<int>, r: Seq<int>, q: int, x: int, l: nat)
    requires
        q > 0,
        crate::upoly::divides_difference(u, qt, phi, r, q),
    ensures
        (eval_upto(u, x, l) - sum(|k: int| conv(qt, phi, k) * pow(x, k as nat), l) - eval_upto(r, x, l)) % q == 0,
{
    let f = |k: int| coef(u, k) * pow(x, k as nat);
    let g = |k: int| conv(qt, phi, k) * pow(x, k as nat);
    let h = |k: int| coef(r, k) * pow(x, k as nat);
    let d = |k: int| f(k) - g(k) - h(k);
    let zero = |k: int| 0int;
    assert forall|k: int| 0 <= k < l implies #[trigger] d(k) % q == zero(k) % q by {
        assert(d(k) == (coef(u, k) - conv(qt, phi, k) - coef(r, k)) * pow(x, k as nat)) by (nonlinear_arith)
            requires d(k) == f(k) - g(k) - h(k), f(k) == coef(u, k) * pow(x, k as nat),
                g(k) == conv(qt, phi, k) * pow(x, k as nat), h(k) == coef(r, k) * pow(x, k as nat);
        assert((coef(u, k) - conv(qt, phi, k) - coef(r, k)) % q == 0);
        lemma_mul_mod_noop_general(coef(u, k) - conv(qt, phi, k) - coef(r, k), pow(x, k as nat), q);
        lemma_small_mod(0, q as nat);
    }
    lemma_sum_mod(d, zero, l, q);
    lemma_sum_zero(zero, l);
    lemma_small_mod(0, q as nat);
    lemma_sum_diff3(f, g, h, l);
    lemma_sum_ext(|k: int| f(k) - g(k) - h(k), d, l);
    lemma_sum_ext(|k: int| coef(u, k) * pow(x, k as nat), f, l);
    lemma_sum_ext(|k: int| coef(r, k) * pow(x, k as nat), h, l);
    lemma_sum_ext(|k: int| conv(qt, phi, k) * pow(x, k as nat), g, l);
}

/// `y ≡ -1` gives `y^(2m+1) ≡ -1`.
proof fn lemma_odd_power_of_minus_one(y: int, m: nat, q: int)
    requires
        q > 1,
        y % q == q - 1,
    ensures
        pow(y, 2 * m + 1) % q == q - 1,
{
    lemma_pow_multiplies(y, 2, m);
    lemma_pow_adds(y, 2 * m, 1);
    lemma_pow1(y);
    assert(pow(y, 2) == y * y) by {
        lemma_pow_adds(y, 1, 1);
        lemma_pow1(y);
    }
    assert((y * y) % q == 1) by {
        lemma_mul_mod_noop_general(y, y, q);
        assert((q - 1) * (q - 1) == q * (q - 2) + 1) by (nonlinear_arith);
        lemma_mod_multiples_vanish(q - 2, 1, q);
        lemma_small_mod(1, q as nat);
    }
    lemma_pow_of_one(pow(y, 2), m, q);
    lemma_mul_mod_noop_general(pow(pow(y, 2), m), y, q);
    lemma_mod_bound(y, q);
    lemma_small_mod((q - 1) as nat, q as nat);
}

/// The modulus `x^n ± 1` vanishes at every evaluation point of the matching transform.
#[verifier::spinoff_prover]
proof fn lemma_phi_vanishes(ctx: NTT, phi: Seq<int>, kk: int)
    requires
        ctx.wf(),
        crate::rq::is_binomial(phi, ctx.n as int, ctx.q as int, ctx.negacyclic()),
        0 <= kk < ctx.n,
    ensures
        eval_upto(phi, pow(ctx.root as int, point_exp(kk, ctx.negacyclic()) as nat), phi.len()) % (ctx.q as int) == 0,
{
    let q = ctx.q as int;
    let n = ctx.n as nat;
    let r = ctx.root as int;
    let neg = ctx.negacyclic();
    let x = pow(r, point_exp(kk, neg) as nat);
    let f = |k: int| coef(phi, k) * pow(x, k as nat);
    let f0 = |k: int| if k == 0 { f(0) } else { 0 };
    let fnn = |k: int| if k == n { f(n as int) } else { 0 };
    let both = |k: int| f0(k) + fnn(k);
    assert(q > 1);
    assert forall|k: int| 0 <= k < n + 1 implies #[trigger] f(k) == both(k) by {
        if 0 < k < n {
            assert(phi[k] == 0);
        }
    }
    lemma_sum_ext(f, both, n + 1);
    lemma_sum_add(f0, fnn, n + 1);
    lemma_sum_ext(|k: int| f0(k) + fnn(k), both, n + 1);
    lemma_sum_single(f0, n + 1, 0);
    lemma_sum_single(fnn, n + 1, n as int);
    lemma_sum_ext(|k: int| coef(phi, k) * pow(x, k as nat), f, n + 1);
    lemma_pow0(x);
    // x^n = r^(e·n)
    let e = point_exp(kk, neg) as nat;
    lemma_pow_multiplies(r, e, n);
    lemma_mul_is_commutative(e as int, n as int);
    lemma_pow_multiplies(r, n, e);
    let xn = pow(x, n);
    if neg {
        assert(ctx.order() / 2 == n);
        lemma_odd_power_of_minus_one(pow(r, n), kk as nat, q);
        assert(e == 2 * (kk as nat) + 1);
        lemma_pow_mod_noop(pow(r, n), e, q);
        assert(xn % q == q - 1);
        lemma_small_mod(1, q as nat);
        assert(phi[0] == 1);
        lemma_add_mod_noop(1, xn, q);
        lemma_small_mod((q - 1) as nat, q as nat);
        assert((1 + (q - 1)) % q == 0) by {
            lemma_mod_multiples_vanish(1, 0, q);
            lemma_small_mod(0, q as nat);
        }
    } else {
        assert(ctx.order() == n);
        lemma_pow_of_one(pow(r, n), e, q);
        crate::zq::lemma_mod_neg_one(q);
        assert(phi[0] == q - 1);
        lemma_add_mod_noop(q - 1, xn, q);
        lemma_small_mod((q - 1) as nat, q as nat);
        assert(((q - 1) + 1) % q == 0) by {
            lemma_mod_multiples_vanish(1, 0, q);
            lemma_small_mod(0, q as nat);
        }
    }
}

/// The forward transform of a short vector is its evaluation at the points.
proof fn lemma_forward_is_eval(ctx: NTT, s: Seq<int>, kk: int)
    requires
        ctx.wf(),
        0 <= kk < ctx.n,
    ensures
        ctx.forward_spec(crate::rq::padded(s, ctx.n as nat), kk)
            == eval_upto(s, pow(ctx.root as int, point_exp(kk, ctx.negacyclic()) as nat), ctx.n as nat) % (ctx.q as int),
{
    let n = ctx.n as nat;
    let r = ctx.root as int;
    let e = point_exp(kk, ctx.negacyclic()) as nat;
    let v = crate::rq::padded(s, n);
    let x = pow(r, e);
    lemma_lin_sum_is_sum(v, r, 0, e, n);
    let f = |t: int| v[t] * pow(r, (0 + e * t) as nat);
    let g = |t: int| coef(s, t) * pow(x, t as nat);
    assert forall|t: int| 0 <= t < n implies #[trigger] f(t) == g(t) by {
        lemma_pow_multiplies(r, e, t as nat);
        assert((0 + e * t) as nat == e * (t as nat));
    }
    lemma_sum_ext(f, g, n);
    lemma_sum_ext(|t: int| v[t] * pow(r, (0 + e * t) as nat), f, n);
    lemma_sum_ext(|k: int| coef(s, k) * pow(x, k as nat), g, n);
}

/// The transform's values multiplied pointwise.
pub open spec fn pointwise_product(a: Seq<int>, b: Seq<int>, q: int) -> Seq<int> {
    Seq::new(a.len(), |k: int| (a[k] * b[k]) % q)
}

/// The transform of a product is the pointwise product of the transforms:
/// transforming the coefficient-basis product `z` of `x` and `y` (their
/// product reduced modulo `Φ`) gives the values of `x` times those of `y`.
#[verifier::spinoff_prover]
pub proof fn lemma_transform_of_product(ring: crate::rq::PolynomialRing, x: Seq<int>, y: Seq<int>, z: Seq<int>)
    requires
        ring.wf(),
        ring.ntt is Some,
        1 <= x.len() <= ring.n,
        1 <= y.len() <= ring.n,
        z.len() <= ring.n,
        forall|i: int| 0 <= i < z.len() ==> 0 <= #[trigger] z[i] < ring.modulus,
        crate::rq::reduces_to(crate::rq::product(x, y), ring.phi(), z, ring.modulus as int),
    ensures
        pointwise_product(ring.ntt.unwrap().forward_seq(crate::rq::padded(x, ring.n as nat)),
            ring.ntt.unwrap().forward_seq(crate::rq::padded(y, ring.n as nat)), ring.modulus as int)
            == ring.ntt.unwrap().forward_seq(crate::rq::padded(z, ring.n as nat)),
{
    let ctx = ring.ntt.unwrap();
    let q = ring.modulus as int;
    let n = ring.n as nat;
    let phi = ring.phi();
    let pr = crate::rq::product(x, y);
    let pz = crate::rq::padded(z, n);
    let qt = choose|qt: Seq<int>| crate::upoly::divides_difference(pr, qt, phi, z, q);
    let l: nat = qt.len() + phi.len() + 2 * n;
    let fx = ctx.forward_seq(crate::rq::padded(x, n));
    let fy = ctx.forward_seq(crate::rq::padded(y, n));
    let pw = pointwise_product(fx, fy, q);
    assert forall|kk: int| 0 <= kk < n implies #[trigger] pw[kk] == ctx.forward_seq(pz)[kk] by {
        let pt = pow(ctx.root as int, point_exp(kk, ctx.negacyclic()) as nat);
        lemma_forward_is_eval(ctx, x, kk);
        lemma_forward_is_eval(ctx, y, kk);
        lemma_forward_is_eval(ctx, z, kk);
        lemma_eval_extend(x, pt, x.len(), n);
        lemma_eval_extend(y, pt, y.len(), n);
        lemma_eval_extend(z, pt, z.len(), n);
        lemma_eval_extend(z, pt, n, l);
        let ex = eval_upto(x, pt, x.len());
        let ey = eval_upto(y, pt, y.len());
        // (x(pt) mod q)·(y(pt) mod q) ≡ x(pt)·y(pt)
        lemma_mul_mod_noop_general(ex, ey, q);
        // x(pt)·y(pt) is the product's evaluation
        lemma_eval_product(x, y, pt, l);
        let cp = |k: int| conv(x, y, k) * pow(pt, k as nat);
        let pp = |k: int| coef(pr, k) * pow(pt, k as nat);
        assert forall|k: int| 0 <= k < l implies #[trigger] cp(k) == pp(k) by {
            if !(0 <= k < pr.len()) {
                crate::upoly::lemma_conv_outside(x, y, k, x.len());
            }
        }
        lemma_sum_ext(cp, pp, l);
        lemma_sum_ext(|k: int| conv(x, y, k) * pow(pt, k as nat), cp, l);
        lemma_sum_ext(|k: int| coef(pr, k) * pow(pt, k as nat), pp, l);
        // the product differs from z by a multiple of Φ, which vanishes at pt
        lemma_eval_divides_difference(pr, qt, phi, z, q, pt, l);
        lemma_eval_product(qt, phi, pt, l);
        lemma_phi_vanishes(ctx, phi, kk);
        let eq = eval_upto(qt, pt, qt.len());
        let ephi = eval_upto(phi, pt, phi.len());
        lemma_mul_mod_noop_general(eq, ephi, q);
        lemma_small_mod(0, q as nat);
        assert((eq * ephi) % q == 0) by {
            lemma_mul_mod_noop_general(eq, ephi, q);
            assert(eq * (ephi % q) == 0) by (nonlinear_arith) requires ephi % q == 0;
        }
        let epr = eval_upto(pr, pt, l);
        let ez = eval_upto(z, pt, l);
        assert((epr - eq * ephi - ez) % q == 0);
        // so epr ≡ ez
        assert(epr % q == ez % q) by {
            lemma_fundamental_div_mod(epr - eq * ephi - ez, q);
            lemma_fundamental_div_mod(eq * ephi, q);
            let m1 = (epr - eq * ephi - ez) / q;
            let m2 = (eq * ephi) / q;
            assert(epr == q * (m1 + m2) + ez) by (nonlinear_arith)
                requires epr - eq * ephi - ez == q * m1 + 0, eq * ephi == q * m2 + 0;
            lemma_mod_multiples_vanish(m1 + m2, ez, q);
        }
        assert(pw[kk] == ((ex % q) * (ey % q)) % q);
    }
    assert(pw =~= ctx.forward_seq(pz));
}

/// Multiplication agrees across bases: transforming two elements,
/// multiplying pointwise and transforming back gives their product reduced
/// modulo `Φ`, the result of the coefficient-basis multiplication.
pub proof fn lemma_mul_agrees_across_bases(ring: crate::rq::PolynomialRing, x: Seq<int>, y: Seq<int>, z: Seq<int>)
    requires
        ring.wf(),
        ring.ntt is Some,
        1 <= x.len() <= ring.n,
        1 <= y.len() <= ring.n,
        z.len() <= ring.n,
        forall|i: int| 0 <= i < z.len() ==> 0 <= #[trigger] z[i] < ring.modulus,
        crate::rq::reduces_to(crate::rq::product(x, y), ring.phi(), z, ring.modulus as int),
    ensures
        forall|j: int| 0 <= j < ring.n ==> #[trigger] ring.ntt.unwrap().inverse_spec(pointwise_product(
            ring.ntt.unwrap().forward_seq(crate::rq::padded(x, ring.n as nat)),
            ring.ntt.unwrap().forward_seq(crate::rq::padded(y, ring.n as nat)), ring.modulus as int), j) == coef(z, j),
{
    let ctx = ring.ntt.unwrap();
    let pz = crate::rq::padded(z, ring.n as nat);
    lemma_transform_of_product(ring, x, y, z);
    assert forall|i: int| 0 <= i < pz.len() implies 0 <= #[trigger] pz[i] < ctx.q by {
        assert(pz[i] == coef(z, i));
    }
    lemma_ntt_round_trip(ctx, pz);
}

} // verus!
