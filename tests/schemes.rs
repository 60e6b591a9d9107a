use rand::Rng;
use rand_distr::{Distribution, Normal};
use sage_math::aes::{gf_multiply, sbox_byte, inv_sbox_byte, AES_CBC, AES_ECB, AES_KEY_SIZE};
use sage_math::bfv::BFV;
use sage_math::kyber::{Kyber, KyberParams};
use sage_math::error::AlgebraError;
use sage_math::ntt::NTT;
use sage_math::padding::{GenericPadding, Paddings};

fn ternary(n: usize) -> Vec<i64> {
    let mut rng = rand::thread_rng();
    (0..n).map(|_| rng.gen_range(-1i64..=1)).collect()
}

fn gaussian(n: usize, sigma: f64) -> Vec<i64> {
    let normal = Normal::new(0.0, sigma).unwrap();
    let mut rng = rand::thread_rng();
    (0..n).map(|_| normal.sample(&mut rng).round() as i64).collect()
}

fn uniform(n: usize, q: u64) -> Vec<u64> {
    let mut rng = rand::thread_rng();
    (0..n).map(|_| rng.gen_range(0..q)).collect()
}

fn bfv_instance(n: usize, p: u64) -> BFV {
    let q = NTT::generate_ntt_prime(n, 60, 1_000_000).unwrap();
    let root = NTT::get_nth_root_of_unity(q, 2 * n as u64, 1000).unwrap().unwrap();
    BFV::init(n, p, q, root, &ternary(n), &uniform(n, q), &gaussian(n, 1.0)).unwrap()
}

fn encrypt(b: &BFV, m: u64) -> (sage_math::rq::PolynomialRingInstance, sage_math::rq::PolynomialRingInstance) {
    let n = b.n;
    b.encrypt_with(m, &ternary(n), &gaussian(n, 1.0), &gaussian(n, 1.0)).unwrap()
}

#[test]
fn bfv_encrypt_decrypt() {
    let b = bfv_instance(1024, 32);
    let c = encrypt(&b, 7);
    assert_eq!(b.decrypt(&vec![c.0, c.1]).unwrap(), 7);
}

#[test]
fn bfv_homomorphic_addition() {
    let b = bfv_instance(1024, 32);
    let c7 = encrypt(&b, 7);
    let c9 = encrypt(&b, 9);
    let s = b.homomorphic_addition(&c7, &c9);
    assert_eq!(b.decrypt(&vec![s.0, s.1]).unwrap(), 16);
}

#[test]
fn bfv_homomorphic_multiplication() {
    let n = 1024;
    let b = bfv_instance(n, 32);
    let c7 = encrypt(&b, 7);
    let c9 = encrypt(&b, 9);
    let l = b.decomposition_length(256);
    let a_samples: Vec<Vec<u64>> = (0..l).map(|_| uniform(n, b.q)).collect();
    let e_samples: Vec<Vec<i64>> = (0..l).map(|_| gaussian(n, 1.0)).collect();
    let keys = b.relinearization_keygen_with_base_decomposition(256, &a_samples, &e_samples).unwrap();
    let t = b.naive_homomorphic_multiplication(&c7, &c9);
    assert_eq!(b.decrypt(&vec![t.0.clone(), t.1.clone(), t.2.clone()]).unwrap(), 63);
    let r = b.relinearize(&t, &keys, 256).unwrap();
    assert_eq!(b.decrypt(&vec![r.0, r.1]).unwrap(), 63);
}

#[test]
fn bfv_errors() {
    let b = bfv_instance(64, 32);
    let n = b.n;
    assert_eq!(b.encrypt_with(32, &ternary(n), &gaussian(n, 1.0), &gaussian(n, 1.0)).unwrap_err(), AlgebraError::ParameterOverflow);
    assert_eq!(b.encrypt_with(3, &ternary(n - 1), &gaussian(n, 1.0), &gaussian(n, 1.0)).unwrap_err(), AlgebraError::LengthMismatch);
    let c = encrypt(&b, 3);
    assert_eq!(b.decrypt(&vec![c.0]).unwrap_err(), AlgebraError::LengthMismatch);
    assert!(BFV::init(64, 32, 97, 1, &ternary(64), &uniform(64, 97), &gaussian(64, 1.0)).is_err());
    assert_eq!(b.relinearization_keygen_with_base_decomposition(1, &vec![], &vec![]).unwrap_err(), AlgebraError::BadParameters);
}

#[test]
fn gf_and_sbox_values() {
    assert_eq!(gf_multiply(0x57, 0x83), 0xc1);
    assert_eq!(gf_multiply(0x57, 0x13), 0xfe);
    assert_eq!(sbox_byte(0x00), 0x63);
    assert_eq!(sbox_byte(0x53), 0xed);
    assert_eq!(sbox_byte(0xff), 0x16);
    for x in 0..=255u8 {
        assert_eq!(inv_sbox_byte(sbox_byte(x)), x);
    }
}

#[test]
fn padding_schemes() {
    let m: Vec<u8> = vec![1, 2, 3, 4, 5];
    let p = GenericPadding::init(Paddings::PKCS7);
    let padded = p.pad(m.clone(), 8);
    assert_eq!(padded, vec![1, 2, 3, 4, 5, 3, 3, 3]);
    assert_eq!(p.unpad(padded, true), m);
    let a = GenericPadding::init(Paddings::ANSI_X9_23);
    let padded = a.pad(m.clone(), 8);
    assert_eq!(padded, vec![1, 2, 3, 4, 5, 0, 0, 3]);
    assert_eq!(a.unpad(padded, true), m);
    let i = GenericPadding::init(Paddings::ISO_IEC_7816_4);
    let padded = i.pad(m.clone(), 8);
    assert_eq!(padded, vec![1, 2, 3, 4, 5, 0x80, 0, 0]);
    assert_eq!(i.unpad(padded, true), m);
    let r = GenericPadding::init(Paddings::ISO_10126);
    let padded = r.pad(m.clone(), 8);
    assert_eq!(padded.len(), 8);
    assert_eq!(padded[7], 3);
    assert_eq!(r.unpad(padded, false), m);
    // a whole block of padding when the message is aligned
    assert_eq!(p.pad(vec![9; 8], 8).len(), 16);
    assert!(!p.accepts(&vec![1, 2, 3, 2], true));
    assert!(p.accepts(&vec![1, 2, 2, 2], true));
}

#[test]
fn aes_cbc_round_trip() {
    let key: Vec<u8> = (0..32).collect();
    let cbc = AES_CBC::init(key, Paddings::PKCS7, AES_KEY_SIZE::AES_256).unwrap();
    let plaintext: Vec<u8> = vec![0, 1, 2, 3, 4, 5, 6, 7, 8, 9, 10, 11, 12, 13, 14, 15, 16, 17, 18, 20, 21, 21, 22, 33];
    let c = cbc.encrypt(plaintext.clone());
    assert_eq!(c.len(), 16 + 32);
    assert_ne!(&c[16..40], &plaintext[..]);
    assert_eq!(cbc.decrypt(c).unwrap(), plaintext);
}

#[test]
fn aes_cbc_fixed_iv_and_bad_input() {
    let key: Vec<u8> = vec![7; 16];
    let cbc = AES_CBC::init(key, Paddings::ANSI_X9_23, AES_KEY_SIZE::AES_128).unwrap();
    let iv = vec![1u8; 16];
    let c1 = cbc.encrypt_with_iv(vec![5; 20], iv.clone());
    let c2 = cbc.encrypt_with_iv(vec![5; 20], iv.clone());
    assert_eq!(c1, c2);
    assert_eq!(&c1[..16], &iv[..]);
    assert_eq!(cbc.decrypt(c1).unwrap(), vec![5; 20]);
    assert_eq!(cbc.decrypt(vec![0; 15]), None);
    assert!(AES_CBC::init(vec![0; 5], Paddings::PKCS7, AES_KEY_SIZE::AES_128).is_none());
}

#[test]
fn bfv_noiseless_round_trip() {
    let b = bfv_instance(64, 32);
    let zeros = vec![0i64; 64];
    for m in [0u64, 1, 5, 31] {
        let c = b.encrypt_with(m, &zeros, &zeros, &zeros).unwrap();
        assert_eq!(b.decrypt(&vec![c.0, c.1]).unwrap(), m as i128);
    }
}

#[test]
fn aes_ecb_round_trip() {
    let plaintext: Vec<u8> = vec![0, 1, 2, 3, 4, 5, 6, 7, 8, 9, 10, 11, 12, 13, 14, 15, 16, 17, 18, 20, 21, 21, 22, 33];
    let key: Vec<u8> = (100..132).collect();
    let ecb = AES_ECB::init(key, Paddings::PKCS7, AES_KEY_SIZE::AES_256).unwrap();
    let c = ecb.encrypt(plaintext.clone());
    assert_eq!(c.len(), 32);
    // equal plaintext blocks give equal ciphertext blocks
    let twice = ecb.encrypt(vec![9u8; 32]);
    assert_eq!(&twice[0..16], &twice[16..32]);
    assert_eq!(ecb.decrypt(c).unwrap(), plaintext);
    assert_eq!(ecb.decrypt(vec![1, 2, 3]), None);
}

fn small_residues(n: usize, eta: i64, q: u64) -> Vec<u64> {
    let mut rng = rand::thread_rng();
    (0..n).map(|_| {
        let x: i64 = rng.gen_range(-eta..=eta);
        if x < 0 { q - (-x) as u64 } else { x as u64 }
    }).collect()
}

fn kyber_round_trip(params: KyberParams) {
    let (k, n, q) = (params.k, params.n, params.q);
    let a: Vec<Vec<Vec<u64>>> = (0..k).map(|_| (0..k).map(|_| uniform(n, q)).collect()).collect();
    let s: Vec<Vec<u64>> = (0..k).map(|_| small_residues(n, 2, q)).collect();
    let e: Vec<Vec<u64>> = (0..k).map(|_| small_residues(n, 2, q)).collect();
    let kp = Kyber::init(params, a, s, &e).unwrap();
    let mut rng = rand::thread_rng();
    let m: Vec<u64> = (0..n).map(|_| rng.gen_range(0..2u64)).collect();
    let r: Vec<Vec<u64>> = (0..k).map(|_| small_residues(n, 2, q)).collect();
    let e1: Vec<Vec<u64>> = (0..k).map(|_| small_residues(n, 2, q)).collect();
    let e2 = small_residues(n, 2, q);
    let (u, v) = kp.encrypt(&m, &r, &e1, &e2).unwrap();
    assert_eq!(kp.decrypt(&u, &v).unwrap(), m);
}

#[test]
fn kyber512_round_trip() {
    kyber_round_trip(KyberParams::kyber512());
}

#[test]
fn kyber1024_round_trip() {
    kyber_round_trip(KyberParams::kyber1024());
}

#[test]
fn kyber_rejects_bad_shapes() {
    let p = KyberParams::kyber512();
    assert_eq!(Kyber::init(p, vec![], vec![], &vec![]).err(), Some(AlgebraError::LengthMismatch));
    let a = vec![vec![vec![0u64; 256]; 2]; 2];
    let s = vec![vec![0u64; 256]; 2];
    let kp = Kyber::init(p, a, s.clone(), &s).unwrap();
    assert_eq!(kp.encrypt(&vec![2; 256], &s, &s, &vec![0; 256]).err(), Some(AlgebraError::LengthMismatch));
    assert_eq!(kp.decrypt(&vec![], &vec![0; 256]).err(), Some(AlgebraError::LengthMismatch));
}

#[test]
fn bfv_noiseless_addition() {
    let b = bfv_instance(64, 32);
    let zeros = vec![0i64; 64];
    let c1 = b.encrypt_with(5, &zeros, &zeros, &zeros).unwrap();
    let c2 = b.encrypt_with(6, &zeros, &zeros, &zeros).unwrap();
    let s = b.homomorphic_addition(&c1, &c2);
    assert_eq!(b.decrypt(&vec![s.0, s.1]).unwrap(), 11);
}

#[test]
fn bfv_large_plaintext_modulus() {
    let b = bfv_instance(64, 1 << 20);
    let c = encrypt(&b, 123_456);
    assert_eq!(b.decrypt(&vec![c.0, c.1]).unwrap(), 123_456);
}
