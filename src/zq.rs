use vstd::prelude::*;
use vstd::arithmetic::div_mod::{
    lemma_add_mod_noop, lemma_add_mod_noop_right, lemma_mod_bound, lemma_mul_mod_noop_general, lemma_sub_mod_noop,
    lemma_fundamental_div_mod, lemma_small_mod, lemma_mod_multiples_vanish,
};
use vstd::arithmetic::power::{pow, lemma_pow_adds, lemma_pow_multiplies};
use vstd::arithmetic::power::lemma_pow_mod_noop;
use vstd::arithmetic::mul::{
    lemma_mul_is_associative, lemma_mul_is_commutative, lemma_mul_is_distributive_add,
    lemma_mul_is_distributive_sub,
};
use crate::error::AlgebraError;

verus! {

/// Largest modulus accepted: sums of two residues then fit in a `u64`.
pub const MAX_MODULUS: u64 = 0x8000_0000_0000_0000;

/// A modulus the residue arithmetic supports.
pub open spec fn valid_modulus(q: int) -> bool {
    0 < q < MAX_MODULUS as int
}

/// Greatest common divisor, by Euclid's recursion.
pub open spec fn gcd(a: nat, b: nat) -> nat
    decreases b,
{
    if b == 0 {
        a
    } else {
        gcd(b, a % b)
    }
}

/// `x` has a multiplicative inverse modulo `q`.
pub open spec fn coprime(x: int, q: int) -> bool {
    gcd(q as nat, (x % q) as nat) == 1
}

/// `x` reduced into `[0, q)`.
pub fn reduce_i64(x: i64, q: u64) -> (r: u64)
    requires
        valid_modulus(q as int),
    ensures
        r as int == (x as int) % (q as int),
        r < q,
{
    if x >= 0 {
        (x as u64) % q
    } else {
        let nx: u64 = (-(x as i128)) as u64;
        let m: u64 = nx % q;
        proof {
            lemma_fundamental_div_mod(nx as int, q as int);
            let k = (nx as int) / (q as int);
            assert(x as int == -(nx as int));
            if m == 0 {
                assert(x as int == (q as int) * (-k)) by (nonlinear_arith)
                    requires
                        nx as int == (q as int) * k + m as int,
                        m == 0,
                        x as int == -(nx as int),
                ;
                lemma_mod_multiples_vanish(-k, 0, q as int);
            } else {
                assert(x as int == (q as int) * (-k - 1) + (q - m) as int) by (nonlinear_arith)
                    requires
                        nx as int == (q as int) * k + m as int,
                        x as int == -(nx as int),
                ;
                lemma_mod_multiples_vanish(-k - 1, (q - m) as int, q as int);
                lemma_small_mod((q - m) as nat, q as nat);
            }
        }
        if m == 0 { 0 } else { q - m }
    }
}

/// `(a + b) mod q` on residues.
pub fn add_mod(a: u64, b: u64, q: u64) -> (r: u64)
    requires
        valid_modulus(q as int),
        a < q,
        b < q,
    ensures
        r as int == (a + b) % (q as int),
        r < q,
{
    let s: u64 = a + b;
    if s >= q {
        proof { lemma_mod_multiples_vanish(1, (s - q) as int, q as int); lemma_small_mod((s - q) as nat, q as nat); }
        s - q
    } else {
        proof { lemma_small_mod(s as nat, q as nat); }
        s
    }
}

/// `(a - b) mod q` on residues.
pub fn sub_mod(a: u64, b: u64, q: u64) -> (r: u64)
    requires
        valid_modulus(q as int),
        a < q,
        b < q,
    ensures
        r as int == (a - b) % (q as int),
        r < q,
{
    if a >= b {
        proof { lemma_small_mod((a - b) as nat, q as nat); }
        a - b
    } else {
        proof {
            lemma_mod_multiples_vanish(-1, (q + a - b) as int, q as int);
            lemma_small_mod((q + a - b) as nat, q as nat);
        }
        q - b + a
    }
}

/// `(-a) mod q` on a residue.
pub fn neg_mod(a: u64, q: u64) -> (r: u64)
    requires
        valid_modulus(q as int),
        a < q,
    ensures
        r as int == (-a) % (q as int),
        r < q,
{
    sub_mod(0, a, q)
}

/// `(a * b) mod q` on residues.
pub fn mul_mod(a: u64, b: u64, q: u64) -> (r: u64)
    requires
        valid_modulus(q as int),
    ensures
        r as int == (a * b) % (q as int),
        r < q,
{
    assert((a as int) * (b as int) <= u64::MAX as int * u64::MAX as int) by (nonlinear_arith)
        requires
            a <= u64::MAX,
            b <= u64::MAX,
    ;
    let p: u128 = (a as u128) * (b as u128);
    let r: u128 = p % (q as u128);
    r as u64
}

/// `b^e mod q`, by square-and-multiply.
pub fn pow_mod(b: u64, e: u64, q: u64) -> (r: u64)
    requires
        valid_modulus(q as int),
    ensures
        r as int == pow(b as int, e as nat) % (q as int),
        r < q,
{
    let mut result: u64 = 1 % q;
    let mut base: u64 = b % q;
    let mut k: u64 = e;
    proof {
        lemma_mod_bound(1, q as int);
        lemma_pow_mod_noop(b as int, e as nat, q as int);
        lemma_mul_mod_noop_general(1, pow(b as int, e as nat), q as int);
        lemma_mul_mod_noop_general(1, pow((b % q) as int, e as nat), q as int);
    }
    while k > 0
        invariant
            valid_modulus(q as int),
            result < q,
            base < q,
            (result * pow(base as int, k as nat)) % (q as int) == pow(b as int, e as nat) % (q as int),
        decreases k,
    {
        let ghost old_k = k;
        let ghost old_base = base;
        let ghost old_result = result;
        if k % 2 == 1 {
            result = mul_mod(result, base, q);
        }
        base = mul_mod(base, base, q);
        k = k / 2;
        proof {
            lemma_pow_step(old_result as int, old_base as int, old_k as nat, result as int, base as int,
                k as nat, q as int);
        }
    }
    proof {
        assert(pow(base as int, 0) == 1) by { reveal(pow); }
        lemma_small_mod(result as nat, q as nat);
    }
    result
}

proof fn lemma_pow_step(r0: int, b0: int, k0: nat, r1: int, b1: int, k1: nat, q: int)
    requires
        q > 0,
        k0 > 0,
        k1 == k0 / 2,
        b1 == (b0 * b0) % q,
        r1 == if k0 % 2 == 1 { (r0 * b0) % q } else { r0 },
    ensures
        (r1 * pow(b1, k1)) % q == (r0 * pow(b0, k0)) % q,
{
    lemma_pow_mod_noop(b0 * b0, k1, q);
    lemma_pow_multiplies(b0, 2, k1);
    lemma_pow_adds(b0, 2 * k1, 1);
    assert(pow(b0, 2) == b0 * b0) by {
        reveal_with_fuel(pow, 3);
    }
    assert(pow(b0, 1) == b0) by {
        reveal_with_fuel(pow, 2);
    }
    // pow(b1, k1) ≡ pow(b0 * b0, k1) == pow(b0, 2 * k1)  (mod q)
    assert(pow(b0 * b0, k1) == pow(b0, 2 * k1));
    let t = pow(b0, 2 * k1);
    assert(pow(b1, k1) % q == t % q);
    if k0 % 2 == 1 {
        assert(k0 == 2 * k1 + 1);
        assert(pow(b0, k0) == t * b0);
        lemma_mul_mod_noop_general(r0 * b0, pow(b1, k1), q);
        lemma_mul_mod_noop_general(r0 * b0, t, q);
        lemma_mul_is_associative(r0, b0, t);
        lemma_mul_is_commutative(b0, t);
        lemma_mul_is_associative(r0, t, b0);
    } else {
        assert(k0 == 2 * k1);
        lemma_mul_mod_noop_general(r0, pow(b1, k1), q);
        lemma_mul_mod_noop_general(r0, t, q);
    }
}

/// The inverse of `x` modulo `q`, found by the extended Euclidean algorithm:
/// `Some(y)` with `x * y ≡ 1 (mod q)` exactly when `gcd(q, x mod q) = 1`.
pub fn inv_mod(x: u64, q: u64) -> (r: Option<u64>)
    requires
        valid_modulus(q as int),
    ensures
        r is Some <==> coprime(x as int, q as int),
        r matches Some(y) ==> y < q && (x * y) % (q as int) == 1int % (q as int),
{
    let xr: u64 = x % q;
    // Invariants: r0 ≡ xr * s0 and r1 ≡ xr * s1 (mod q); gcd(r0, r1) = gcd(q, xr).
    let mut r0: u64 = q;
    let mut r1: u64 = xr;
    let mut s0: u64 = 0;
    let mut s1: u64 = 1 % q;
    proof {
        lemma_mod_bound(1, q as int);
        lemma_mod_self_zero(q as int);
        lemma_mul_mod_noop_general(xr as int, 1, q as int);
    }
    while r1 != 0
        invariant
            valid_modulus(q as int),
            xr == x % q,
            r0 <= q,
            r1 < q,
            s0 < q,
            s1 < q,
            gcd(r0 as nat, r1 as nat) == gcd(q as nat, xr as nat),
            (r0 as int) % (q as int) == (xr * s0) % (q as int),
            (r1 as int) % (q as int) == (xr * s1) % (q as int),
        decreases r1,
    {
        let k: u64 = r0 / r1;
        let r2: u64 = r0 % r1;
        let ks: u64 = mul_mod(k % q, s1, q);
        let s2: u64 = sub_mod(s0, ks, q);
        proof {
            lemma_euclid_step(r0 as int, r1 as int, k as int, r2 as int, s0 as int, s1 as int,
                ks as int, s2 as int, xr as int, q as int);
        }
        r0 = r1;
        r1 = r2;
        s0 = s1;
        s1 = s2;
    }
    proof {
        assert(gcd(r0 as nat, 0) == r0 as nat);
    }
    if r0 == 1 {
        proof {
            lemma_mul_mod_noop_general(x as int, s0 as int, q as int);
        }
        Some(s0)
    } else {
        None
    }
}

proof fn lemma_mod_self_zero(q: int)
    requires
        q > 0,
    ensures
        q % q == 0,
        (0int) % q == 0,
{
    lemma_mod_multiples_vanish(1, 0, q);
    lemma_small_mod(0, q as nat);
}

proof fn lemma_euclid_step(r0: int, r1: int, k: int, r2: int, s0: int, s1: int, ks: int,
    s2: int, x: int, q: int)
    requires
        q > 0,
        r1 > 0,
        r0 >= 0,
        k == r0 / r1,
        r2 == r0 % r1,
        ks == ((k % q) * s1) % q,
        s2 == (s0 - ks) % q,
        r0 % q == (x * s0) % q,
        r1 % q == (x * s1) % q,
    ensures
        r2 % q == (x * s2) % q,
{
    lemma_fundamental_div_mod(r0, r1);
    assert(r2 == r0 - k * r1);
    // x*s2 ≡ x*s0 - k*(x*s1) ≡ r0 - k*r1 = r2
    lemma_mul_mod_noop_general(k, s1, q);
    lemma_mul_mod_noop_general(x, s2, q);
    lemma_mul_mod_noop_general(x, s0 - ks, q);
    lemma_mul_is_distributive_sub(x, s0, ks);
    lemma_sub_mod_noop(x * s0, x * ks, q);
    lemma_mul_mod_noop_general(x, ks, q);
    lemma_mul_mod_noop_general(x, k * s1, q);
    lemma_mul_is_associative(x, k, s1);
    lemma_mul_is_commutative(x, k);
    lemma_mul_is_associative(k, x, s1);
    lemma_mul_mod_noop_general(k, x * s1, q);
    lemma_mul_mod_noop_general(k, r1, q);
    lemma_sub_mod_noop(r0, k * r1, q);
}

/// The ring of residues modulo `modulus`.
#[derive(Debug, Clone, Copy, PartialEq, Eq, Structural)]
pub struct Zmod {
    pub modulus: u64,
}

/// A residue class, held by its canonical lift `value` in `[0, modulus)`.
#[derive(Debug, Clone, Copy, PartialEq, Eq, Structural)]
pub struct ZmodInstance {
    pub value: u64,
    pub modulus: u64,
}

impl Zmod {
    pub open spec fn wf(&self) -> bool {
        valid_modulus(self.modulus as int)
    }

    /// The residue ring modulo `q`; `BadParameters` when `q` is zero or too large.
    pub fn new(q: u64) -> (r: Result<Zmod, AlgebraError>)
        ensures
            valid_modulus(q as int) <==> r is Ok,
            r matches Ok(z) ==> z.modulus == q && z.wf(),
            r matches Err(e) ==> e == AlgebraError::BadParameters,
    {
        if q == 0 || q >= MAX_MODULUS {
            Err(AlgebraError::BadParameters)
        } else {
            Ok(Zmod { modulus: q })
        }
    }

    /// The class of the integer `x`.
    pub fn apply(&self, x: i64) -> (r: ZmodInstance)
        requires
            self.wf(),
        ensures
            r.wf(),
            r.modulus == self.modulus,
            r.value as int == (x as int) % (self.modulus as int),
    {
        ZmodInstance { value: reduce_i64(x, self.modulus), modulus: self.modulus }
    }

    pub fn zero(&self) -> (r: ZmodInstance)
        requires
            self.wf(),
        ensures
            r.wf(),
            r.modulus == self.modulus,
            r.value == 0,
    {
        ZmodInstance { value: 0, modulus: self.modulus }
    }

    pub fn one(&self) -> (r: ZmodInstance)
        requires
            self.wf(),
        ensures
            r.wf(),
            r.modulus == self.modulus,
            r.value as int == 1int % (self.modulus as int),
    {
        ZmodInstance { value: 1 % self.modulus, modulus: self.modulus }
    }
}

impl ZmodInstance {
    pub open spec fn wf(&self) -> bool {
        valid_modulus(self.modulus as int) && self.value < self.modulus
    }

    pub fn add(&self, other: &ZmodInstance) -> (r: Result<ZmodInstance, AlgebraError>)
        requires
            self.wf(),
            other.wf(),
        ensures
            r is Err <==> self.modulus != other.modulus,
            r matches Err(e) ==> e == AlgebraError::DomainMismatch,
            r matches Ok(z) ==> z.wf() && z.modulus == self.modulus
                && z.value as int == (self.value + other.value) % (self.modulus as int),
    {
        if self.modulus != other.modulus {
            return Err(AlgebraError::DomainMismatch);
        }
        Ok(ZmodInstance { value: add_mod(self.value, other.value, self.modulus), modulus: self.modulus })
    }

    pub fn sub(&self, other: &ZmodInstance) -> (r: Result<ZmodInstance, AlgebraError>)
        requires
            self.wf(),
            other.wf(),
        ensures
            r is Err <==> self.modulus != other.modulus,
            r matches Err(e) ==> e == AlgebraError::DomainMismatch,
            r matches Ok(z) ==> z.wf() && z.modulus == self.modulus
                && z.value as int == (self.value - other.value) % (self.modulus as int),
    {
        if self.modulus != other.modulus {
            return Err(AlgebraError::DomainMismatch);
        }
        Ok(ZmodInstance { value: sub_mod(self.value, other.value, self.modulus), modulus: self.modulus })
    }

    pub fn mul(&self, other: &ZmodInstance) -> (r: Result<ZmodInstance, AlgebraError>)
        requires
            self.wf(),
            other.wf(),
        ensures
            r is Err <==> self.modulus != other.modulus,
            r matches Err(e) ==> e == AlgebraError::DomainMismatch,
            r matches Ok(z) ==> z.wf() && z.modulus == self.modulus
                && z.value as int == (self.value * other.value) % (self.modulus as int),
    {
        if self.modulus != other.modulus {
            return Err(AlgebraError::DomainMismatch);
        }
        Ok(ZmodInstance { value: mul_mod(self.value, other.value, self.modulus), modulus: self.modulus })
    }

    pub fn neg(&self) -> (r: ZmodInstance)
        requires
            self.wf(),
        ensures
            r.wf(),
            r.modulus == self.modulus,
            r.value as int == (-self.value) % (self.modulus as int),
    {
        ZmodInstance { value: neg_mod(self.value, self.modulus), modulus: self.modulus }
    }

    /// The multiplicative inverse; `NotInvertible` exactly when the lift shares a factor with the modulus.
    pub fn inverse(&self) -> (r: Result<ZmodInstance, AlgebraError>)
        requires
            self.wf(),
        ensures
            r is Ok <==> coprime(self.value as int, self.modulus as int),
            r matches Err(e) ==> e == AlgebraError::NotInvertible,
            r matches Ok(z) ==> z.wf() && z.modulus == self.modulus
                && (self.value * z.value) % (self.modulus as int) == 1int % (self.modulus as int),
    {
        match inv_mod(self.value, self.modulus) {
            Some(y) => Ok(ZmodInstance { value: y, modulus: self.modulus }),
            None => Err(AlgebraError::NotInvertible),
        }
    }

    /// `self · other⁻¹`: `DomainMismatch` for another modulus,
    /// `NotInvertible` when `other` is not a unit.
    pub fn div(&self, other: &ZmodInstance) -> (r: Result<ZmodInstance, AlgebraError>)
        requires
            self.wf(),
            other.wf(),
        ensures
            self.modulus != other.modulus ==> r == Err::<ZmodInstance, AlgebraError>(AlgebraError::DomainMismatch),
            self.modulus == other.modulus && !coprime(other.value as int, other.modulus as int)
                ==> r == Err::<ZmodInstance, AlgebraError>(AlgebraError::NotInvertible),
            r is Ok <==> (self.modulus == other.modulus && coprime(other.value as int, other.modulus as int)),
            r matches Ok(z) ==> z.wf() && z.modulus == self.modulus
                && (z.value * other.value) % (self.modulus as int) == (self.value as int) % (self.modulus as int),
    {
        if self.modulus != other.modulus {
            return Err(AlgebraError::DomainMismatch);
        }
        let inv = match other.inverse() {
            Ok(i) => i,
            Err(e) => { return Err(e); },
        };
        let z = ZmodInstance { value: mul_mod(self.value, inv.value, self.modulus), modulus: self.modulus };
        proof {
            let q = self.modulus as int;
            lemma_mul_mod_noop_general(self.value * inv.value, other.value as int, q);
            assert((self.value * inv.value) * other.value == self.value * (other.value * inv.value)) by (nonlinear_arith);
            lemma_mul_mod_noop_general(self.value as int, other.value * inv.value, q);
            lemma_mul_mod_noop_general(self.value as int, 1, q);
        }
        Ok(z)
    }

    /// `self` raised to the power `e`.
    pub fn pow(&self, e: u64) -> (r: ZmodInstance)
        requires
            self.wf(),
        ensures
            r.wf(),
            r.modulus == self.modulus,
            r.value as int == pow(self.value as int, e as nat) % (self.modulus as int),
    {
        ZmodInstance { value: pow_mod(self.value, e, self.modulus), modulus: self.modulus }
    }
}

/// Addition of residues is associative.
pub proof fn lemma_add_associative(a: int, b: int, c: int, q: int)
    requires
        q > 0,
    ensures
        ((a + b) % q + c) % q == (a + (b + c) % q) % q,
{
    lemma_add_mod_noop_right(c, a + b, q);
    lemma_add_mod_noop_right(a, b + c, q);
    assert(c + (a + b) == a + (b + c));
}

/// Multiplication of residues is associative.
pub proof fn lemma_mul_associative(a: int, b: int, c: int, q: int)
    requires
        q > 0,
    ensures
        (((a * b) % q) * c) % q == (a * ((b * c) % q)) % q,
{
    lemma_mul_mod_noop_general(a * b, c, q);
    lemma_mul_mod_noop_general(a, b * c, q);
    lemma_mul_is_associative(a, b, c);
}

/// Multiplication of residues distributes over addition.
pub proof fn lemma_distributive(a: int, b: int, c: int, q: int)
    requires
        q > 0,
    ensures
        (a * ((b + c) % q)) % q == ((a * b) % q + (a * c) % q) % q,
{
    lemma_mul_mod_noop_general(a, b + c, q);
    lemma_mul_is_distributive_add(a, b, c);
    lemma_add_mod_noop(a * b, a * c, q);
}

/// A residue plus its negation is zero.
pub proof fn lemma_add_inverse(a: int, q: int)
    requires
        q > 0,
    ensures
        (a + (-a) % q) % q == 0,
{
    lemma_add_mod_noop_right(a, -a, q);
    lemma_small_mod(0, q as nat);
}

/// `gcd(a, b)` divides both arguments and is positive unless both are zero.
pub proof fn lemma_gcd_divides(a: nat, b: nat)
    requires
        a > 0 || b > 0,
    ensures
        gcd(a, b) > 0,
        a % gcd(a, b) == 0,
        b % gcd(a, b) == 0,
    decreases b,
{
    if b == 0 {
        lemma_mod_multiples_vanish(1, 0, a as int);
        lemma_small_mod(0, a as nat);
    } else {
        let r = a % b;
        lemma_gcd_divides(b, r);
        let g = gcd(b, r);
        lemma_fundamental_div_mod(a as int, b as int);
        lemma_fundamental_div_mod(b as int, g as int);
        let m = (b / g) as int;
        assert(a as int == g * (m * (a / b) as int) + r) by (nonlinear_arith)
            requires
                a as int == b * (a / b) + r,
                b as int == g * m + 0,
        ;
        lemma_mod_multiples_vanish(m * (a / b) as int, r as int, g as int);
    }
}

/// Modulo a prime, every non-zero residue is coprime to the modulus.
pub proof fn lemma_prime_units(q: int, x: int)
    requires
        q > 1,
        forall|d: int| 1 < d < q ==> #[trigger] (q % d) != 0,
        0 < x < q,
    ensures
        coprime(x, q),
{
    lemma_small_mod(x as nat, q as nat);
    lemma_gcd_divides(q as nat, x as nat);
    let g = gcd(q as nat, x as nat) as int;
    if g > x {
        lemma_small_mod(x as nat, g as nat);
    }
    assert(g <= x);
    if g > 1 {
        assert(q % g != 0);
    }
}

/// `-1 mod q` is `q - 1`.
pub proof fn lemma_mod_neg_one(q: int)
    requires
        q > 0,
    ensures
        (-1int) % q == q - 1,
{
    lemma_mod_multiples_vanish(-1, q - 1, q);
    lemma_small_mod((q - 1) as nat, q as nat);
}

/// Reducing twice is reducing once.
pub proof fn lemma_mod_mod_eq(x: int, q: int)
    requires
        q > 0,
    ensures
        (x % q) % q == x % q,
{
    lemma_mod_bound(x, q);
    lemma_small_mod((x % q) as nat, q as nat);
}

} // verus!
