use vstd::prelude::*;
use crate::padding::{GenericPadding, Paddings};

verus! {

/// Multiplication by `x` in GF(2^8) modulo `x^8 + x^4 + x^3 + x + 1`.
pub open spec fn xtime(a: u8) -> u8 {
    if a & 0x80 == 0 {
        (a << 1) as u8
    } else {
        ((a << 1) as u8) ^ 0x1b
    }
}

/// The product of `a` and the low `n` bits of `b` in GF(2^8).
pub open spec fn gf_mul_bits(a: u8, b: u8, n: nat) -> u8
    decreases n,
{
    if n == 0 {
        0
    } else {
        (if b & 1 == 1 { a } else { 0u8 }) ^ gf_mul_bits(xtime(a), b >> 1, (n - 1) as nat)
    }
}

/// The product in GF(2^8).
pub open spec fn gf_mul(a: u8, b: u8) -> u8 {
    gf_mul_bits(a, b, 8)
}

/// `a^n` in GF(2^8).
pub open spec fn gf_pow(a: u8, n: nat) -> u8
    decreases n,
{
    if n == 0 {
        1
    } else {
        gf_mul(a, gf_pow(a, (n - 1) as nat))
    }
}

/// The multiplicative inverse in GF(2^8) (`0` for `0`): `a^254`.
pub open spec fn gf_inv(a: u8) -> u8 {
    gf_pow(a, 254)
}

pub open spec fn rotl(b: u8, k: u8) -> u8 {
    ((b << k) | (b >> ((8 - k) as u8))) as u8
}

/// The AES S-box: inversion followed by the affine map.
pub open spec fn sbox(x: u8) -> u8 {
    let b = gf_inv(x);
    b ^ rotl(b, 1) ^ rotl(b, 2) ^ rotl(b, 3) ^ rotl(b, 4) ^ 0x63
}

/// The inverse S-box: the inverse affine map followed by inversion.
pub open spec fn inv_sbox(y: u8) -> u8 {
    gf_inv(rotl(y, 1) ^ rotl(y, 3) ^ rotl(y, 6) ^ 0x05)
}

fn xtime_exec(a: u8) -> (r: u8)
    ensures
        r == xtime(a),
{
    if a & 0x80 == 0 {
        a << 1
    } else {
        (a << 1) ^ 0x1b
    }
}

/// Product in GF(2^8), by shift and add.
pub fn gf_multiply(a: u8, b: u8) -> (r: u8)
    ensures
        r == gf_mul(a, b),
{
    let mut acc: u8 = 0;
    let mut x: u8 = a;
    let mut y: u8 = b;
    let mut i: u8 = 0;
    let ghost g = gf_mul(a, b);
    assert(0u8 ^ g == g) by (bit_vector);
    while i < 8
        invariant
            i <= 8,
            acc ^ gf_mul_bits(x, y, (8 - i) as nat) == gf_mul(a, b),
        decreases 8 - i,
    {
        let t: u8 = if y & 1 == 1 { x } else { 0 };
        let ghost rest = gf_mul_bits(xtime(x), y >> 1, (8 - i - 1) as nat);
        assert(gf_mul_bits(x, y, (8 - i) as nat) == t ^ rest);
        assert((acc ^ t) ^ rest == acc ^ (t ^ rest)) by (bit_vector);
        acc = acc ^ t;
        x = xtime_exec(x);
        y = y >> 1;
        i = i + 1;
    }
    assert(acc ^ 0u8 == acc) by (bit_vector);
    acc
}

/// `a^254`, the inverse in GF(2^8).
fn gf_inverse(a: u8) -> (r: u8)
    ensures
        r == gf_inv(a),
{
    let mut acc: u8 = 1;
    let mut i: u16 = 0;
    while i < 254
        invariant
            i <= 254,
            acc == gf_pow(a, i as nat),
        decreases 254 - i,
    {
        acc = gf_multiply(a, acc);
        i = i + 1;
    }
    acc
}

fn rotl_exec(b: u8, k: u8) -> (r: u8)
    requires
        1 <= k <= 7,
    ensures
        r == rotl(b, k),
{
    (b << k) | (b >> (8 - k))
}

/// The S-box image of one byte.
pub fn sbox_byte(x: u8) -> (r: u8)
    ensures
        r == sbox(x),
{
    let b = gf_inverse(x);
    b ^ rotl_exec(b, 1) ^ rotl_exec(b, 2) ^ rotl_exec(b, 3) ^ rotl_exec(b, 4) ^ 0x63
}

/// The inverse S-box image of one byte.
pub fn inv_sbox_byte(y: u8) -> (r: u8)
    ensures
        r == inv_sbox(y),
{
    gf_inverse(rotl_exec(y, 1) ^ rotl_exec(y, 3) ^ rotl_exec(y, 6) ^ 0x05)
}

/// The state is a 4×4 byte matrix stored column by column: byte `r + 4c`
/// sits in row `r`, column `c`. ShiftRows moves row `r` left by `r`.
pub open spec fn shifted(s: Seq<u8>) -> Seq<u8> {
    Seq::new(16, |i: int| s[i % 4 + 4 * ((i / 4 + i % 4) % 4)])
}

/// InvShiftRows moves row `r` right by `r`.
pub open spec fn unshifted(s: Seq<u8>) -> Seq<u8> {
    Seq::new(16, |i: int| s[i % 4 + 4 * ((i / 4 - i % 4 + 4) % 4)])
}

pub fn shift_rows(current_state: &mut Vec<u8>)
    requires
        old(current_state)@.len() == 16,
    ensures
        final(current_state)@ == shifted(old(current_state)@),
{
    let s = current_state.clone();
    let mut i: usize = 0;
    while i < 16
        invariant
            s@.len() == 16,
            current_state@.len() == 16,
            i <= 16,
            forall|j: int| 0 <= j < i ==> #[trigger] current_state@[j] == shifted(s@)[j],
        decreases 16 - i,
    {
        let src = i % 4 + 4 * ((i / 4 + i % 4) % 4);
        current_state.set(i, s[src]);
        i = i + 1;
    }
    assert(current_state@ =~= shifted(s@));
}

pub fn inverse_shift_rows(current_state: &mut Vec<u8>)
    requires
        old(current_state)@.len() == 16,
    ensures
        final(current_state)@ == unshifted(old(current_state)@),
{
    let s = current_state.clone();
    let mut i: usize = 0;
    while i < 16
        invariant
            s@.len() == 16,
            current_state@.len() == 16,
            i <= 16,
            forall|j: int| 0 <= j < i ==> #[trigger] current_state@[j] == unshifted(s@)[j],
        decreases 16 - i,
    {
        let src = i % 4 + 4 * ((i / 4 + 4 - i % 4) % 4);
        current_state.set(i, s[src]);
        i = i + 1;
    }
    assert(current_state@ =~= unshifted(s@));
}

/// Byte-wise XOR of the key into the state.
pub fn add(current_state: &mut Vec<u8>, key: &Vec<u8>)
    requires
        key@.len() >= old(current_state)@.len(),
    ensures
        final(current_state)@.len() == old(current_state)@.len(),
        forall|i: int| 0 <= i < old(current_state)@.len()
            ==> #[trigger] final(current_state)@[i] == old(current_state)@[i] ^ key@[i],
{
    let ghost s = current_state@;
    let mut i: usize = 0;
    while i < current_state.len()
        invariant
            current_state@.len() == s.len(),
            key@.len() >= s.len(),
            i <= s.len(),
            forall|j: int| 0 <= j < i ==> #[trigger] current_state@[j] == s[j] ^ key@[j],
            forall|j: int| i <= j < s.len() ==> #[trigger] current_state@[j] == s[j],
        decreases s.len() - i,
    {
        let v = current_state[i] ^ key[i];
        current_state.set(i, v);
        i = i + 1;
    }
}

/// Every byte through the S-box.
pub fn sub_bytes(current_state: &mut Vec<u8>)
    ensures
        final(current_state)@ == old(current_state)@.map_values(|b: u8| sbox(b)),
{
    let ghost s = current_state@;
    let mut i: usize = 0;
    while i < current_state.len()
        invariant
            current_state@.len() == s.len(),
            i <= s.len(),
            forall|j: int| 0 <= j < i ==> #[trigger] current_state@[j] == sbox(s[j]),
            forall|j: int| i <= j < s.len() ==> #[trigger] current_state@[j] == s[j],
        decreases s.len() - i,
    {
        let v = sbox_byte(current_state[i]);
        current_state.set(i, v);
        i = i + 1;
    }
    assert(current_state@ =~= s.map_values(|b: u8| sbox(b)));
}

/// Every byte through the inverse S-box.
pub fn inverse_sub_bytes(current_state: &mut Vec<u8>)
    ensures
        final(current_state)@ == old(current_state)@.map_values(|b: u8| inv_sbox(b)),
{
    let ghost s = current_state@;
    let mut i: usize = 0;
    while i < current_state.len()
        invariant
            current_state@.len() == s.len(),
            i <= s.len(),
            forall|j: int| 0 <= j < i ==> #[trigger] current_state@[j] == inv_sbox(s[j]),
            forall|j: int| i <= j < s.len() ==> #[trigger] current_state@[j] == s[j],
        decreases s.len() - i,
    {
        let v = inv_sbox_byte(current_state[i]);
        current_state.set(i, v);
        i = i + 1;
    }
    assert(current_state@ =~= s.map_values(|b: u8| inv_sbox(b)));
}

/// Byte `r` of a column after MixColumns with coefficient rows `m`.
pub open spec fn mixed_byte(col: Seq<u8>, m: Seq<u8>, r: int) -> u8 {
    gf_mul(m[(4 - r) % 4], col[0]) ^ gf_mul(m[(5 - r) % 4], col[1])
        ^ gf_mul(m[(6 - r) % 4], col[2]) ^ gf_mul(m[(7 - r) % 4], col[3])
}

/// Every column multiplied by the circulant matrix whose first row is `m`.
pub open spec fn mixed(s: Seq<u8>, m: Seq<u8>) -> Seq<u8> {
    Seq::new(16, |i: int| mixed_byte(s.subrange(4 * (i / 4), 4 * (i / 4) + 4), m, i % 4))
}

/// MixColumns' first row `(2, 3, 1, 1)`.
pub open spec fn mix_row() -> Seq<u8> {
    seq![2u8, 3u8, 1u8, 1u8]
}

/// InvMixColumns' first row `(14, 11, 13, 9)`.
pub open spec fn inv_mix_row() -> Seq<u8> {
    seq![14u8, 11u8, 13u8, 9u8]
}

fn mix_with(current_state: &mut Vec<u8>, m0: u8, m1: u8, m2: u8, m3: u8)
    requires
        old(current_state)@.len() == 16,
    ensures
        final(current_state)@ == mixed(old(current_state)@, seq![m0, m1, m2, m3]),
{
    let ghost m = seq![m0, m1, m2, m3];
    let s = current_state.clone();
    let mut i: usize = 0;
    while i < 16
        invariant
            s@.len() == 16,
            m == seq![m0, m1, m2, m3],
            current_state@.len() == 16,
            i <= 16,
            forall|j: int| 0 <= j < i ==> #[trigger] current_state@[j] == mixed(s@, m)[j],
        decreases 16 - i,
    {
        let c = i / 4;
        let r = i % 4;
        let mm: [u8; 4] = [m0, m1, m2, m3];
        let v = gf_multiply(mm[(4 - r) % 4], s[4 * c]) ^ gf_multiply(mm[(5 - r) % 4], s[4 * c + 1])
            ^ gf_multiply(mm[(6 - r) % 4], s[4 * c + 2]) ^ gf_multiply(mm[(7 - r) % 4], s[4 * c + 3]);
        proof {
            let col = s@.subrange(4 * c as int, 4 * c as int + 4);
            assert(col[0] == s@[4 * c as int]);
            assert(col[1] == s@[4 * c as int + 1]);
            assert(col[2] == s@[4 * c as int + 2]);
            assert(col[3] == s@[4 * c as int + 3]);
            assert(mm@ == m);
        }
        current_state.set(i, v);
        i = i + 1;
    }
    assert(current_state@ =~= mixed(s@, m));
}

pub fn mix_columns(current_state: &mut Vec<u8>)
    requires
        old(current_state)@.len() == 16,
    ensures
        final(current_state)@ == mixed(old(current_state)@, mix_row()),
{
    mix_with(current_state, 2, 3, 1, 1);
}

pub fn inverse_mix_columns(current_state: &mut Vec<u8>)
    requires
        old(current_state)@.len() == 16,
    ensures
        final(current_state)@ == mixed(old(current_state)@, inv_mix_row()),
{
    mix_with(current_state, 14, 11, 13, 9);
}

/// One round: SubBytes, ShiftRows, MixColumns.
pub fn forward_round(current_state: &mut Vec<u8>)
    requires
        old(current_state)@.len() == 16,
    ensures
        final(current_state)@ == mixed(shifted(old(current_state)@.map_values(|b: u8| sbox(b))), mix_row()),
{
    sub_bytes(current_state);
    shift_rows(current_state);
    mix_columns(current_state);
}

/// One inverse round: InvMixColumns, InvShiftRows, InvSubBytes.
pub fn backward_round(current_state: &mut Vec<u8>)
    requires
        old(current_state)@.len() == 16,
    ensures
        final(current_state)@ == unshifted(mixed(old(current_state)@, inv_mix_row())).map_values(|b: u8| inv_sbox(b)),
{
    inverse_mix_columns(current_state);
    inverse_shift_rows(current_state);
    inverse_sub_bytes(current_state);
}

/// The round constant for the `j`-th use (from 1): `x^(j-1)` in GF(2^8).
pub open spec fn rcon(j: nat) -> u8
    decreases j,
{
    if j <= 1 {
        1
    } else {
        xtime(rcon((j - 1) as nat))
    }
}

/// Column `i` of the key schedule for a key of `nk` columns.
pub open spec fn schedule_column(key: Seq<u8>, nk: nat, i: nat) -> Seq<u8>
    decreases i,
{
    if nk == 0 || i < nk {
        key.subrange(4 * i as int, 4 * i as int + 4)
    } else if i % nk == 0 {
        let p = schedule_column(key, nk, (i - 1) as nat);
        let b = schedule_column(key, nk, (i - nk) as nat);
        seq![sbox(p[1]) ^ b[0] ^ rcon(i / nk), sbox(p[2]) ^ b[1], sbox(p[3]) ^ b[2], sbox(p[0]) ^ b[3]]
    } else {
        let p = schedule_column(key, nk, (i - 1) as nat);
        let b = schedule_column(key, nk, (i - nk) as nat);
        seq![p[0] ^ b[0], p[1] ^ b[1], p[2] ^ b[2], p[3] ^ b[3]]
    }
}

/// Round key `r`: columns `4r .. 4r + 4` of the schedule.
pub open spec fn round_key(key: Seq<u8>, nk: nat, r: nat) -> Seq<u8> {
    schedule_column(key, nk, 4 * r) + schedule_column(key, nk, 4 * r + 1)
        + schedule_column(key, nk, 4 * r + 2) + schedule_column(key, nk, 4 * r + 3)
}

/// The key schedule for a key of `nk` four-byte columns: `n_rounds + 1` round keys.
#[verifier::spinoff_prover]
fn expand_key(nk: usize, n_rounds: usize, key: &Vec<u8>) -> (r: Vec<Vec<u8>>)
    requires
        1 <= nk <= 8,
        key@.len() == 4 * nk,
        n_rounds <= 64,
    ensures
        r@.len() == n_rounds + 1,
        forall|i: int| 0 <= i <= n_rounds ==> #[trigger] r@[i]@ == round_key(key@, nk as nat, i as nat),
{
    let total: usize = 4 * (n_rounds + 1);
    let mut cols: Vec<Vec<u8>> = Vec::new();
    let mut i: usize = 0;
    let mut rc: u8 = 1;
    let mut uses: usize = 1;
    while i < total
        invariant
            1 <= nk <= 8,
            key@.len() == 4 * nk,
            total == 4 * (n_rounds + 1),
            i <= total,
            cols@.len() == i,
            i >= nk ==> uses == (i as int) / (nk as int) + (if i % nk == 0 { 0int } else { 1int }),
            i < nk ==> uses == 1,
            uses >= 1,
            rc == rcon(uses as nat),
            forall|j: int| 0 <= j < i ==> #[trigger] cols@[j]@ == schedule_column(key@, nk as nat, j as nat),
            forall|j: int| 0 <= j < i ==> (#[trigger] cols@[j])@.len() == 4,
        decreases total - i,
    {
        let mut col: Vec<u8> = Vec::new();
        if i < nk {
            col.push(key[4 * i]);
            col.push(key[4 * i + 1]);
            col.push(key[4 * i + 2]);
            col.push(key[4 * i + 3]);
            proof {
                assert(col@ =~= key@.subrange(4 * i as int, 4 * i as int + 4));
            }
        } else {
            let p = &cols[i - 1];
            let b = &cols[i - nk];
            proof {
                assert(p@ == schedule_column(key@, nk as nat, (i - 1) as nat));
                assert(b@ == schedule_column(key@, nk as nat, (i - nk) as nat));
            }
            if i % nk == 0 {
                proof {
                    assert(uses == (i as int) / (nk as int));
                }
                col.push(sbox_byte(p[1]) ^ b[0] ^ rc);
                col.push(sbox_byte(p[2]) ^ b[1]);
                col.push(sbox_byte(p[3]) ^ b[2]);
                col.push(sbox_byte(p[0]) ^ b[3]);
            } else {
                col.push(p[0] ^ b[0]);
                col.push(p[1] ^ b[1]);
                col.push(p[2] ^ b[2]);
                col.push(p[3] ^ b[3]);
            }
            proof {
                assert(col@ =~= schedule_column(key@, nk as nat, i as nat));
            }
        }
        if i >= nk && i % nk == 0 {
            rc = xtime_exec(rc);
            uses = uses + 1;
        }
        cols.push(col);
        proof {
            let i1 = i + 1;
            if i1 >= nk {
                vstd::arithmetic::div_mod::lemma_fundamental_div_mod(i as int, nk as int);
                vstd::arithmetic::div_mod::lemma_fundamental_div_mod(i1 as int, nk as int);
                vstd::arithmetic::div_mod::lemma_mod_bound(i as int, nk as int);
                vstd::arithmetic::div_mod::lemma_mod_bound(i1 as int, nk as int);
                if i < nk {
                    assert(i1 == nk);
                    vstd::arithmetic::div_mod::lemma_mod_multiples_vanish(1, 0, nk as int);
                    vstd::arithmetic::div_mod::lemma_small_mod(0, nk as nat);
                    assert(i1 as int / nk as int == 1) by {
                        vstd::arithmetic::div_mod::lemma_div_multiples_vanish(1, nk as int);
                    }
                } else {
                    lemma_div_step(i as int, nk as int);
                }
            }
        }
        i = i + 1;
    }
    let mut keys: Vec<Vec<u8>> = Vec::new();
    let mut r: usize = 0;
    while r <= n_rounds
        invariant
            total == 4 * (n_rounds + 1),
            cols@.len() == total,
            n_rounds <= 64,
            r <= n_rounds + 1,
            keys@.len() == r,
            forall|j: int| 0 <= j < total ==> #[trigger] cols@[j]@ == schedule_column(key@, nk as nat, j as nat),
            forall|j: int| 0 <= j < r ==> #[trigger] keys@[j]@ == round_key(key@, nk as nat, j as nat),
        decreases n_rounds + 1 - r,
    {
        let mut k: Vec<u8> = Vec::new();
        let mut c: usize = 0;
        while c < 4
            invariant
                c <= 4,
                r <= n_rounds,
                total == 4 * (n_rounds + 1),
                cols@.len() == total,
                forall|j: int| 0 <= j < total ==> #[trigger] cols@[j]@ == schedule_column(key@, nk as nat, j as nat),
                k@ == if c == 0 { Seq::<u8>::empty() } else if c == 1 { schedule_column(key@, nk as nat, 4 * r as nat) }
                    else if c == 2 { schedule_column(key@, nk as nat, 4 * r as nat) + schedule_column(key@, nk as nat, 4 * r as nat + 1) }
                    else if c == 3 { schedule_column(key@, nk as nat, 4 * r as nat) + schedule_column(key@, nk as nat, 4 * r as nat + 1)
                        + schedule_column(key@, nk as nat, 4 * r as nat + 2) }
                    else { round_key(key@, nk as nat, r as nat) },
            decreases 4 - c,
        {
            let col = &cols[4 * r + c];
            let mut t: usize = 0;
            let ghost before = k@;
            while t < col.len()
                invariant
                    t <= col@.len(),
                    k@ == before + col@.subrange(0, t as int),
                decreases col@.len() - t,
            {
                k.push(col[t]);
                t = t + 1;
                assert(k@ =~= before + col@.subrange(0, t as int));
            }
            assert(col@.subrange(0, col@.len() as int) =~= col@);
            c = c + 1;
            proof {
                assert(cols@[4 * r + c - 1]@ == schedule_column(key@, nk as nat, (4 * r + c - 1) as nat));
            }
        }
        keys.push(k);
        r = r + 1;
    }
    keys
}

proof fn lemma_div_step(i: int, nk: int)
    requires
        nk >= 1,
        i >= nk,
    ensures
        (i + 1) / nk == i / nk + (if (i + 1) % nk == 0 { 1int } else { 0int }),
        (i % nk == 0 && nk > 1) ==> (i + 1) % nk == 1,
{
    vstd::arithmetic::div_mod::lemma_fundamental_div_mod(i, nk);
    vstd::arithmetic::div_mod::lemma_fundamental_div_mod(i + 1, nk);
    vstd::arithmetic::div_mod::lemma_mod_bound(i, nk);
    vstd::arithmetic::div_mod::lemma_mod_bound(i + 1, nk);
    let q = i / nk;
    let r = i % nk;
    assert(i == q * nk + r) by (nonlinear_arith)
        requires
            i == nk * q + r,
    ;
    if r + 1 < nk {
        vstd::arithmetic::div_mod::lemma_fundamental_div_mod_converse(i + 1, nk, q, r + 1);
    } else {
        assert(i + 1 == (q + 1) * nk + 0) by (nonlinear_arith)
            requires
                i == q * nk + r,
                r + 1 == nk,
        ;
        vstd::arithmetic::div_mod::lemma_fundamental_div_mod_converse(i + 1, nk, q + 1, 0);
    }
}

/// A key schedule for one AES key size.
#[allow(non_camel_case_types)]
pub trait AES_KEY_EXPANDER {
    /// The number of four-byte columns of the key.
    spec fn key_columns() -> nat;

    fn get_n_rounds_keys(n_rounds: usize, key: Vec<u8>) -> (r: Vec<Vec<u8>>)
        requires
            key@.len() == 4 * Self::key_columns(),
            n_rounds <= 64,
        ensures
            r@.len() == n_rounds + 1,
            forall|i: int| 0 <= i <= n_rounds ==> #[trigger] r@[i]@ == round_key(key@, Self::key_columns(), i as nat),
    ;
}

#[allow(non_camel_case_types)]
pub struct AES_256_KEY_EXPANDER {}

impl AES_KEY_EXPANDER for AES_256_KEY_EXPANDER {
    open spec fn key_columns() -> nat {
        8
    }

    fn get_n_rounds_keys(n_rounds: usize, key: Vec<u8>) -> (r: Vec<Vec<u8>>) {
        expand_key(8, n_rounds, &key)
    }
}

#[allow(non_camel_case_types)]
pub struct AES_192_KEY_EXPANDER {}

impl AES_KEY_EXPANDER for AES_192_KEY_EXPANDER {
    open spec fn key_columns() -> nat {
        6
    }

    fn get_n_rounds_keys(n_rounds: usize, key: Vec<u8>) -> (r: Vec<Vec<u8>>) {
        expand_key(6, n_rounds, &key)
    }
}

#[allow(non_camel_case_types)]
pub struct AES_128_KEY_EXPANDER {}

impl AES_KEY_EXPANDER for AES_128_KEY_EXPANDER {
    open spec fn key_columns() -> nat {
        4
    }

    fn get_n_rounds_keys(n_rounds: usize, key: Vec<u8>) -> (r: Vec<Vec<u8>>) {
        expand_key(4, n_rounds, &key)
    }
}

/// The AES key sizes.
#[derive(Debug, Clone, Copy, PartialEq, Eq, Structural)]
#[allow(non_camel_case_types)]
pub enum AES_KEY_SIZE {
    AES_128,
    AES_192,
    AES_256,
}

/// Key columns for a key size.
pub open spec fn key_columns_of(k: AES_KEY_SIZE) -> nat {
    match k {
        AES_KEY_SIZE::AES_128 => 4,
        AES_KEY_SIZE::AES_192 => 6,
        AES_KEY_SIZE::AES_256 => 8,
    }
}

/// Rounds for a key size.
pub open spec fn rounds_of(k: AES_KEY_SIZE) -> nat {
    match k {
        AES_KEY_SIZE::AES_128 => 10,
        AES_KEY_SIZE::AES_192 => 12,
        AES_KEY_SIZE::AES_256 => 14,
    }
}

/// Byte-wise XOR of two sequences, as long as the first.
pub open spec fn xor_seq(a: Seq<u8>, b: Seq<u8>) -> Seq<u8> {
    Seq::new(a.len(), |i: int| a[i] ^ b[i])
}

/// The state after the initial key addition and `i` rounds of encryption.
pub open spec fn encrypted_state(s: Seq<u8>, key: Seq<u8>, nk: nat, i: nat) -> Seq<u8>
    decreases i,
{
    if i == 0 {
        xor_seq(s, round_key(key, nk, 0))
    } else {
        xor_seq(mixed(shifted(encrypted_state(s, key, nk, (i - 1) as nat).map_values(|b: u8| sbox(b))), mix_row()),
            round_key(key, nk, i))
    }
}

/// The state after the key addition with round key `rounds` and `i` inverse rounds.
pub open spec fn decrypted_state(s: Seq<u8>, key: Seq<u8>, nk: nat, rounds: nat, i: nat) -> Seq<u8>
    decreases i,
{
    if i == 0 {
        xor_seq(s, round_key(key, nk, rounds))
    } else {
        xor_seq(unshifted(mixed(decrypted_state(s, key, nk, rounds, (i - 1) as nat), inv_mix_row())).map_values(|b: u8| inv_sbox(b)),
            round_key(key, nk, (rounds - i) as nat))
    }
}

fn round_keys(key: Vec<u8>, rounds: usize, key_size: AES_KEY_SIZE) -> (r: Vec<Vec<u8>>)
    requires
        key@.len() == 4 * key_columns_of(key_size),
        rounds <= 64,
    ensures
        r@.len() == rounds + 1,
        forall|i: int| 0 <= i <= rounds ==> #[trigger] r@[i]@ == round_key(key@, key_columns_of(key_size), i as nat),
{
    match key_size {
        AES_KEY_SIZE::AES_128 => AES_128_KEY_EXPANDER::get_n_rounds_keys(rounds, key),
        AES_KEY_SIZE::AES_192 => AES_192_KEY_EXPANDER::get_n_rounds_keys(rounds, key),
        AES_KEY_SIZE::AES_256 => AES_256_KEY_EXPANDER::get_n_rounds_keys(rounds, key),
    }
}

proof fn lemma_round_key_len(key: Seq<u8>, nk: nat, r: nat)
    requires
        1 <= nk,
        key.len() == 4 * nk,
    ensures
        round_key(key, nk, r).len() == 16,
{
    lemma_column_len(key, nk, 4 * r);
    lemma_column_len(key, nk, 4 * r + 1);
    lemma_column_len(key, nk, 4 * r + 2);
    lemma_column_len(key, nk, 4 * r + 3);
}

proof fn lemma_column_len(key: Seq<u8>, nk: nat, i: nat)
    requires
        1 <= nk,
        key.len() == 4 * nk,
    ensures
        schedule_column(key, nk, i).len() == 4,
    decreases i,
{
}

/// Encrypts one 16-byte block in place with `rounds` rounds.
pub fn encrypt(message: &mut Vec<u8>, key: Vec<u8>, rounds: usize, key_size: AES_KEY_SIZE)
    requires
        old(message)@.len() == 16,
        key@.len() == 4 * key_columns_of(key_size),
        rounds <= 64,
    ensures
        final(message)@ == encrypted_state(old(message)@, key@, key_columns_of(key_size), rounds as nat),
{
    let ghost k = key@;
    let ghost nk = key_columns_of(key_size);
    let ghost s = message@;
    let keys = round_keys(key, rounds, key_size);
    proof { lemma_round_key_len(k, nk, 0); }
    crate::aes::add(message, &keys[0]);
    assert(message@ =~= encrypted_state(s, k, nk, 0));
    let mut i: usize = 0;
    while i < rounds
        invariant
            i <= rounds,
            1 <= nk,
            k.len() == 4 * nk,
            keys@.len() == rounds + 1,
            forall|j: int| 0 <= j <= rounds ==> #[trigger] keys@[j]@ == round_key(k, nk, j as nat),
            message@ == encrypted_state(s, k, nk, i as nat),
            message@.len() == 16,
        decreases rounds - i,
    {
        forward_round(message);
        proof { lemma_round_key_len(k, nk, (i + 1) as nat); }
        crate::aes::add(message, &keys[i + 1]);
        assert(message@ =~= encrypted_state(s, k, nk, (i + 1) as nat));
        i = i + 1;
    }
}

/// Decrypts one 16-byte block in place with `rounds` rounds.
pub fn decrypt(message: &mut Vec<u8>, key: Vec<u8>, rounds: usize, key_size: AES_KEY_SIZE)
    requires
        old(message)@.len() == 16,
        key@.len() == 4 * key_columns_of(key_size),
        rounds <= 64,
    ensures
        final(message)@ == decrypted_state(old(message)@, key@, key_columns_of(key_size), rounds as nat, rounds as nat),
{
    let ghost k = key@;
    let ghost nk = key_columns_of(key_size);
    let ghost s = message@;
    let keys = round_keys(key, rounds, key_size);
    proof { lemma_round_key_len(k, nk, rounds as nat); }
    crate::aes::add(message, &keys[rounds]);
    assert(message@ =~= decrypted_state(s, k, nk, rounds as nat, 0));
    let mut i: usize = 0;
    while i < rounds
        invariant
            i <= rounds,
            1 <= nk,
            k.len() == 4 * nk,
            keys@.len() == rounds + 1,
            forall|j: int| 0 <= j <= rounds ==> #[trigger] keys@[j]@ == round_key(k, nk, j as nat),
            message@ == decrypted_state(s, k, nk, rounds as nat, i as nat),
            message@.len() == 16,
        decreases rounds - i,
    {
        backward_round(message);
        proof { lemma_round_key_len(k, nk, (rounds - i - 1) as nat); }
        crate::aes::add(message, &keys[rounds - i - 1]);
        assert(message@ =~= decrypted_state(s, k, nk, rounds as nat, (i + 1) as nat));
        i = i + 1;
    }
}

/// CBC encryption of the whole 16-byte blocks of `p`, chained from `prev`.
pub open spec fn cbc_chain(p: Seq<u8>, prev: Seq<u8>, key: Seq<u8>, nk: nat, rounds: nat) -> Seq<u8>
    decreases p.len(),
{
    if p.len() < 16 {
        Seq::empty()
    } else {
        let c = encrypted_state(xor_seq(p.subrange(0, 16), prev), key, nk, rounds);
        c + cbc_chain(p.subrange(16, p.len() as int), c, key, nk, rounds)
    }
}

/// CBC decryption of the whole 16-byte blocks of `c`, chained from `prev`.
pub open spec fn cbc_unchain(c: Seq<u8>, prev: Seq<u8>, key: Seq<u8>, nk: nat, rounds: nat) -> Seq<u8>
    decreases c.len(),
{
    if c.len() < 16 {
        Seq::empty()
    } else {
        let b = c.subrange(0, 16);
        xor_seq(decrypted_state(b, key, nk, rounds, rounds), prev)
            + cbc_unchain(c.subrange(16, c.len() as int), b, key, nk, rounds)
    }
}

proof fn lemma_block_bound(i: int, blocks: int, len: int)
    requires
        0 <= i < blocks,
        len >= 0,
        blocks == len / 16,
    ensures
        16 * i + 16 <= len,
{
    vstd::arithmetic::div_mod::lemma_fundamental_div_mod(len, 16);
    vstd::arithmetic::div_mod::lemma_mod_bound(len, 16);
}

/// A fresh initialisation vector of 16 random bytes.
fn random_iv() -> (r: Vec<u8>)
    ensures
        r@.len() == 16,
{
    let mut iv: Vec<u8> = Vec::new();
    let mut i: usize = 0;
    while i < 16
        invariant
            i <= 16,
            iv@.len() == i,
        decreases 16 - i,
    {
        iv.push(crate::padding::random_byte());
        i = i + 1;
    }
    iv
}

fn xor_block(a: &Vec<u8>, b: &Vec<u8>) -> (r: Vec<u8>)
    requires
        a@.len() <= b@.len(),
    ensures
        r@ == xor_seq(a@, b@),
{
    let mut r: Vec<u8> = Vec::new();
    let mut i: usize = 0;
    while i < a.len()
        invariant
            i <= a@.len() <= b@.len(),
            r@ == xor_seq(a@.subrange(0, i as int), b@),
        decreases a@.len() - i,
    {
        r.push(a[i] ^ b[i]);
        i = i + 1;
        assert(r@ =~= xor_seq(a@.subrange(0, i as int), b@));
    }
    assert(a@.subrange(0, a@.len() as int) =~= a@);
    r
}

fn slice_vec(v: &Vec<u8>, from: usize, to: usize) -> (r: Vec<u8>)
    requires
        from <= to <= v@.len(),
    ensures
        r@ == v@.subrange(from as int, to as int),
{
    let mut r: Vec<u8> = Vec::new();
    let mut i: usize = from;
    while i < to
        invariant
            from <= i <= to <= v@.len(),
            r@ == v@.subrange(from as int, i as int),
        decreases to - i,
    {
        r.push(v[i]);
        i = i + 1;
        assert(r@ =~= v@.subrange(from as int, i as int));
    }
    r
}

/// AES in cipher-block-chaining mode with a padding scheme.
#[allow(non_camel_case_types)]
pub struct AES_CBC {
    pub key: Vec<u8>,
    pub key_size: AES_KEY_SIZE,
    pub padding: GenericPadding,
}

impl AES_CBC {
    pub open spec fn wf(&self) -> bool {
        self.key@.len() == 4 * key_columns_of(self.key_size)
    }

    /// `None` when `key` does not have the length `key_size` asks for.
    pub fn init(key: Vec<u8>, padding: Paddings, key_size: AES_KEY_SIZE) -> (r: Option<AES_CBC>)
        ensures
            r is Some <==> key@.len() == 4 * key_columns_of(key_size),
            r matches Some(c) ==> c.wf() && c.key@ == key@ && c.key_size == key_size
                && c.padding.padding_method == padding,
    {
        let nk: usize = match key_size {
            AES_KEY_SIZE::AES_128 => 4,
            AES_KEY_SIZE::AES_192 => 6,
            AES_KEY_SIZE::AES_256 => 8,
        };
        if key.len() != 4 * nk {
            return None;
        }
        Some(AES_CBC { key, key_size, padding: GenericPadding::init(padding) })
    }

    fn rounds(&self) -> (r: usize)
        ensures
            r == rounds_of(self.key_size),
    {
        match self.key_size {
            AES_KEY_SIZE::AES_128 => 10,
            AES_KEY_SIZE::AES_192 => 12,
            AES_KEY_SIZE::AES_256 => 14,
        }
    }

    /// `iv` followed by the CBC encryption of the padded plaintext.
    #[verifier::spinoff_prover]
    #[verifier::rlimit(40)]
    pub fn encrypt_with_iv(&self, plaintext: Vec<u8>, iv: Vec<u8>) -> (r: Vec<u8>)
        requires
            self.wf(),
            iv@.len() == 16,
            plaintext@.len() + 16 <= usize::MAX - 16,
        ensures
            exists|padded: Seq<u8>| {
                &&& self.padding.pads_to(plaintext@, 16, padded)
                &&& r@ == iv@ + cbc_chain(padded, iv@, self.key@, key_columns_of(self.key_size), rounds_of(self.key_size))
            },
    {
        let ghost m = plaintext@;
        let padded = self.padding.pad(plaintext, 16);
        assert(self.padding.pads_to(m, 16, padded@));
        let rounds = self.rounds();
        let ghost p = padded@;
        let ghost k = self.key@;
        let ghost nk = key_columns_of(self.key_size);
        let mut out: Vec<u8> = iv.clone();
        let mut prev: Vec<u8> = iv.clone();
        let plen = padded.len();
        let blocks = plen / 16;
        let mut i: usize = 0;
        assert(p.subrange(0, p.len() as int) =~= p);
        while i < blocks
            invariant
                self.wf(),
                rounds == rounds_of(self.key_size),
                k == self.key@,
                nk == key_columns_of(self.key_size),
                padded@ == p,
                p.len() == plen,
                p.len() % 16 == 0,
                blocks == p.len() / 16,
                i <= blocks,
                prev@.len() == 16,
                out@.len() == 16 + 16 * i,
                out@ + cbc_chain(p.subrange(16 * i as int, p.len() as int), prev@, k, nk, rounds as nat)
                    == iv@ + cbc_chain(p, iv@, k, nk, rounds as nat),
            decreases blocks - i,
        {
            proof { lemma_block_bound(i as int, blocks as int, p.len() as int); }
            let ghost rest = p.subrange(16 * i as int, p.len() as int);
            let block = slice_vec(&padded, 16 * i, 16 * i + 16);
            let mut x = xor_block(&block, &prev);
            crate::aes::encrypt(&mut x, self.key.clone(), rounds, self.key_size);
            proof {
                assert(block@ =~= rest.subrange(0, 16));
                assert(rest.subrange(16, rest.len() as int) =~= p.subrange(16 * (i + 1) as int, p.len() as int));
                assert(cbc_chain(rest, prev@, k, nk, rounds as nat)
                    == x@ + cbc_chain(rest.subrange(16, rest.len() as int), x@, k, nk, rounds as nat));
            }
            let mut j: usize = 0;
            let ghost before = out@;
            while j < 16
                invariant
                    j <= 16,
                    x@.len() == 16,
                    out@ == before + x@.subrange(0, j as int),
                decreases 16 - j,
            {
                out.push(x[j]);
                j = j + 1;
                assert(out@ =~= before + x@.subrange(0, j as int));
            }
            proof {
                assert(x@.subrange(0, 16) =~= x@);
                assert(out@ + cbc_chain(p.subrange(16 * (i + 1) as int, p.len() as int), x@, k, nk, rounds as nat)
                    =~= before + cbc_chain(rest, prev@, k, nk, rounds as nat));
            }
            prev = x;
            i = i + 1;
        }
        proof {
            assert(p.subrange(16 * blocks as int, p.len() as int).len() == 0);
            assert(out@ =~= iv@ + cbc_chain(p, iv@, k, nk, rounds as nat));
        }
        out
    }

    /// Encryption under a fresh random initialisation vector, which leads the output.
    pub fn encrypt(&self, plaintext: Vec<u8>) -> (r: Vec<u8>)
        requires
            self.wf(),
            plaintext@.len() + 16 <= usize::MAX - 16,
        ensures
            r@.len() >= 16,
            exists|padded: Seq<u8>| {
                &&& self.padding.pads_to(plaintext@, 16, padded)
                &&& r@ == r@.subrange(0, 16) + cbc_chain(padded, r@.subrange(0, 16), self.key@,
                    key_columns_of(self.key_size), rounds_of(self.key_size))
            },
    {
        let iv = random_iv();
        let r = self.encrypt_with_iv(plaintext, iv);
        proof {
            let ghost padded = choose|padded: Seq<u8>| {
                &&& #[trigger] self.padding.pads_to(plaintext@, 16, padded)
                &&& r@ == iv@ + cbc_chain(padded, iv@, self.key@, key_columns_of(self.key_size), rounds_of(self.key_size))
            };
            assert(r@.subrange(0, 16) =~= iv@);
        }
        r
    }

    /// Decrypts `iv || blocks` and strips the padding. `None` when the input
    /// is not a whole number (at least one) of blocks, or the padding is malformed.
    #[verifier::spinoff_prover]
    #[verifier::rlimit(40)]
    pub fn decrypt(&self, ciphertext: Vec<u8>) -> (r: Option<Vec<u8>>)
        requires
            self.wf(),
        ensures
            ({
                let c = ciphertext@;
                let plain = cbc_unchain(c.subrange(16, c.len() as int), c.subrange(0, 16), self.key@,
                    key_columns_of(self.key_size), rounds_of(self.key_size));
                &&& r is Some <==> (c.len() >= 16 && c.len() % 16 == 0 && self.padding.unpad_accepts(plain, true))
                &&& r matches Some(m) ==> m@ == self.padding.unpadded(plain)
            }),
    {
        let ghost c = ciphertext@;
        if ciphertext.len() < 16 || ciphertext.len() % 16 != 0 {
            return None;
        }
        let rounds = self.rounds();
        let ghost k = self.key@;
        let ghost nk = key_columns_of(self.key_size);
        let mut prev = slice_vec(&ciphertext, 0, 16);
        let mut out: Vec<u8> = Vec::new();
        let clen = ciphertext.len();
        let blocks = clen / 16;
        let mut i: usize = 1;
        let ghost body = c.subrange(16, c.len() as int);
        assert(c.subrange(16, c.len() as int) =~= body);
        while i < blocks
            invariant
                self.wf(),
                rounds == rounds_of(self.key_size),
                k == self.key@,
                nk == key_columns_of(self.key_size),
                ciphertext@ == c,
                c.len() == clen,
                c.len() % 16 == 0,
                blocks == c.len() / 16,
                1 <= i <= blocks,
                prev@ == c.subrange(16 * (i - 1), 16 * i as int),
                out@ + cbc_unchain(c.subrange(16 * i as int, c.len() as int), prev@, k, nk, rounds as nat)
                    == cbc_unchain(body, c.subrange(0, 16), k, nk, rounds as nat),
            decreases blocks - i,
        {
            proof { lemma_block_bound(i as int, blocks as int, c.len() as int); }
            let ghost rest = c.subrange(16 * i as int, c.len() as int);
            let block = slice_vec(&ciphertext, 16 * i, 16 * i + 16);
            let mut x = block.clone();
            assert(x@ == block@);
            crate::aes::decrypt(&mut x, self.key.clone(), rounds, self.key_size);
            let y = xor_block(&x, &prev);
            proof {
                assert(block@ =~= rest.subrange(0, 16));
                assert(rest.subrange(16, rest.len() as int) =~= c.subrange(16 * (i + 1) as int, c.len() as int));
            }
            let mut j: usize = 0;
            let ghost before = out@;
            while j < 16
                invariant
                    j <= 16,
                    y@.len() == 16,
                    out@ == before + y@.subrange(0, j as int),
                decreases 16 - j,
            {
                out.push(y[j]);
                j = j + 1;
                assert(out@ =~= before + y@.subrange(0, j as int));
            }
            proof {
                assert(y@.subrange(0, 16) =~= y@);
                assert(out@ + cbc_unchain(c.subrange(16 * (i + 1) as int, c.len() as int), block@, k, nk, rounds as nat)
                    =~= before + cbc_unchain(rest, prev@, k, nk, rounds as nat));
            }
            prev = block;
            i = i + 1;
        }
        proof {
            assert(c.subrange(16 * blocks as int, c.len() as int).len() == 0);
            assert(out@ =~= cbc_unchain(body, c.subrange(0, 16), k, nk, rounds as nat));
        }
        if !self.padding.accepts(&out, true) {
            return None;
        }
        Some(self.padding.unpad(out, true))
    }
}

/// ECB encryption of the whole 16-byte blocks of `p`, each block on its own.
pub open spec fn ecb_blocks(p: Seq<u8>, key: Seq<u8>, nk: nat, rounds: nat, decrypting: bool) -> Seq<u8>
    decreases p.len(),
{
    if p.len() < 16 {
        Seq::empty()
    } else {
        let b = p.subrange(0, 16);
        (if decrypting { decrypted_state(b, key, nk, rounds, rounds) } else { encrypted_state(b, key, nk, rounds) })
            + ecb_blocks(p.subrange(16, p.len() as int), key, nk, rounds, decrypting)
    }
}

/// AES in electronic-codebook mode with a padding scheme.
#[allow(non_camel_case_types)]
pub struct AES_ECB {
    pub key: Vec<u8>,
    pub key_size: AES_KEY_SIZE,
    pub padding: GenericPadding,
}

impl AES_ECB {
    pub open spec fn wf(&self) -> bool {
        self.key@.len() == 4 * key_columns_of(self.key_size)
    }

    /// `None` when `key` does not have the length `key_size` asks for.
    pub fn init(key: Vec<u8>, padding: Paddings, key_size: AES_KEY_SIZE) -> (r: Option<AES_ECB>)
        ensures
            r is Some <==> key@.len() == 4 * key_columns_of(key_size),
            r matches Some(c) ==> c.wf() && c.key@ == key@ && c.key_size == key_size
                && c.padding.padding_method == padding,
    {
        let nk: usize = match key_size {
            AES_KEY_SIZE::AES_128 => 4,
            AES_KEY_SIZE::AES_192 => 6,
            AES_KEY_SIZE::AES_256 => 8,
        };
        if key.len() != 4 * nk {
            return None;
        }
        Some(AES_ECB { key, key_size, padding: GenericPadding::init(padding) })
    }

    /// Every whole block of `data` through the cipher (or its inverse).
    #[verifier::spinoff_prover]
    fn blocks(&self, data: &Vec<u8>, decrypting: bool) -> (r: Vec<u8>)
        requires
            self.wf(),
            data@.len() % 16 == 0,
        ensures
            r@ == ecb_blocks(data@, self.key@, key_columns_of(self.key_size), rounds_of(self.key_size), decrypting),
    {
        let rounds: usize = match self.key_size {
            AES_KEY_SIZE::AES_128 => 10,
            AES_KEY_SIZE::AES_192 => 12,
            AES_KEY_SIZE::AES_256 => 14,
        };
        let ghost p = data@;
        let ghost k = self.key@;
        let ghost nk = key_columns_of(self.key_size);
        let plen = data.len();
        let count = plen / 16;
        let mut out: Vec<u8> = Vec::new();
        let mut i: usize = 0;
        assert(p.subrange(0, p.len() as int) =~= p);
        while i < count
            invariant
                self.wf(),
                rounds == rounds_of(self.key_size),
                k == self.key@,
                nk == key_columns_of(self.key_size),
                data@ == p,
                p.len() == plen,
                p.len() % 16 == 0,
                count == p.len() / 16,
                i <= count,
                out@ + ecb_blocks(p.subrange(16 * i as int, p.len() as int), k, nk, rounds as nat, decrypting)
                    == ecb_blocks(p, k, nk, rounds as nat, decrypting),
            decreases count - i,
        {
            proof { lemma_block_bound(i as int, count as int, p.len() as int); }
            let ghost rest = p.subrange(16 * i as int, p.len() as int);
            let mut x = slice_vec(data, 16 * i, 16 * i + 16);
            let ghost xin = x@;
            if decrypting {
                crate::aes::decrypt(&mut x, self.key.clone(), rounds, self.key_size);
            } else {
                crate::aes::encrypt(&mut x, self.key.clone(), rounds, self.key_size);
            }
            proof {
                assert(xin =~= rest.subrange(0, 16));
                assert(rest.subrange(16, rest.len() as int) =~= p.subrange(16 * (i + 1) as int, p.len() as int));
            }
            let mut j: usize = 0;
            let ghost before = out@;
            while j < 16
                invariant
                    j <= 16,
                    x@.len() == 16,
                    out@ == before + x@.subrange(0, j as int),
                decreases 16 - j,
            {
                out.push(x[j]);
                j = j + 1;
                assert(out@ =~= before + x@.subrange(0, j as int));
            }
            proof {
                assert(x@.subrange(0, 16) =~= x@);
                assert(out@ + ecb_blocks(p.subrange(16 * (i + 1) as int, p.len() as int), k, nk, rounds as nat, decrypting)
                    =~= before + ecb_blocks(rest, k, nk, rounds as nat, decrypting));
            }
            i = i + 1;
        }
        proof {
            assert(p.subrange(16 * count as int, p.len() as int).len() == 0);
            assert(out@ =~= ecb_blocks(p, k, nk, rounds as nat, decrypting));
        }
        out
    }

    /// The padded plaintext, block by block through the cipher.
    pub fn encrypt(&self, plaintext: Vec<u8>) -> (r: Vec<u8>)
        requires
            self.wf(),
            plaintext@.len() + 16 <= usize::MAX,
        ensures
            exists|padded: Seq<u8>| {
                &&& self.padding.pads_to(plaintext@, 16, padded)
                &&& r@ == ecb_blocks(padded, self.key@, key_columns_of(self.key_size), rounds_of(self.key_size), false)
            },
    {
        let ghost m = plaintext@;
        let padded = self.padding.pad(plaintext, 16);
        assert(self.padding.pads_to(m, 16, padded@));
        let r = self.blocks(&padded, false);
        assert(r@ == ecb_blocks(padded@, self.key@, key_columns_of(self.key_size), rounds_of(self.key_size), false));
        r
    }

    /// Deciphers every block and strips the padding. `None` when the input is
    /// not a whole number of blocks or the padding is malformed.
    pub fn decrypt(&self, ciphertext: Vec<u8>) -> (r: Option<Vec<u8>>)
        requires
            self.wf(),
        ensures
            ({
                let plain = ecb_blocks(ciphertext@, self.key@, key_columns_of(self.key_size), rounds_of(self.key_size), true);
                &&& r is Some <==> (ciphertext@.len() % 16 == 0 && self.padding.unpad_accepts(plain, true))
                &&& r matches Some(m) ==> m@ == self.padding.unpadded(plain)
            }),
    {
        if ciphertext.len() % 16 != 0 {
            return None;
        }
        let out = self.blocks(&ciphertext, true);
        if !self.padding.accepts(&out, true) {
            return None;
        }
        Some(self.padding.unpad(out, true))
    }
}

} // verus!
