use sage_math::error::AlgebraError;
use sage_math::kyber::{compress, decompress};
use sage_math::matrix::Matrix;
use sage_math::ntt::{NTTFactory, NTT_Algorithm, NTT};
use sage_math::rq::PolynomialRing;
use sage_math::rq::PolynomialRingInstance;
use sage_math::upoly::UnivariatePolynomial;
use sage_math::vector::Vector;
use sage_math::zq::Zmod;

fn pow_mod(b: u64, e: u64, q: u64) -> u64 {
    let mut r: u128 = 1;
    let mut base: u128 = (b % q) as u128;
    let mut e = e;
    while e > 0 {
        if e & 1 == 1 {
            r = r * base % q as u128;
        }
        base = base * base % q as u128;
        e >>= 1;
    }
    r as u64
}

#[test]
fn zq_apply_reduces_negative_values() {
    let z = Zmod::new(13).unwrap();
    assert_eq!(z.apply(-1).value, 12);
    assert_eq!(z.apply(27).value, 1);
    assert_eq!(z.apply(0).value, 0);
}

#[test]
fn zq_arithmetic() {
    let z = Zmod::new(13).unwrap();
    let a = z.apply(9);
    let b = z.apply(7);
    assert_eq!(a.add(&b).unwrap().value, 3);
    assert_eq!(a.sub(&b).unwrap().value, 2);
    assert_eq!(b.sub(&a).unwrap().value, 11);
    assert_eq!(a.mul(&b).unwrap().value, 11);
    assert_eq!(a.neg().value, 4);
    assert_eq!(z.apply(2).pow(10).value, 1024 % 13);
}

#[test]
fn zq_laws_on_values() {
    let z = Zmod::new(97).unwrap();
    for x in [0i64, 1, 5, 42, 96] {
        for y in [3i64, 17, 50] {
            for w in [2i64, 60] {
                let (a, b, c) = (z.apply(x), z.apply(y), z.apply(w));
                let l = a.add(&b).unwrap().add(&c).unwrap();
                let r = a.add(&b.add(&c).unwrap()).unwrap();
                assert_eq!(l, r);
                let l = a.mul(&b.add(&c).unwrap()).unwrap();
                let r = a.mul(&b).unwrap().add(&a.mul(&c).unwrap()).unwrap();
                assert_eq!(l, r);
            }
        }
        let a = z.apply(x);
        assert_eq!(a.add(&a.neg()).unwrap().value, 0);
    }
}

#[test]
fn zq_inverse() {
    let z = Zmod::new(13).unwrap();
    let x = z.apply(7);
    let y = x.inverse().unwrap();
    assert_eq!(y.value, 2);
    assert_eq!(x.mul(&y).unwrap().value, 1);
    let z8 = Zmod::new(8).unwrap();
    assert_eq!(z8.apply(4).inverse(), Err(AlgebraError::NotInvertible));
    assert_eq!(z8.apply(3).inverse().unwrap().value, 3);
}

#[test]
fn zq_domain_mismatch() {
    let a = Zmod::new(13).unwrap().apply(1);
    let b = Zmod::new(7).unwrap().apply(1);
    assert_eq!(a.add(&b), Err(AlgebraError::DomainMismatch));
    assert_eq!(a.mul(&b), Err(AlgebraError::DomainMismatch));
}

#[test]
fn zq_bad_modulus() {
    assert_eq!(Zmod::new(0), Err(AlgebraError::BadParameters));
    assert_eq!(Zmod::new(u64::MAX), Err(AlgebraError::BadParameters));
}

#[test]
fn upoly_new_strips_trailing_zeros() {
    let p = UnivariatePolynomial::new(vec![1, 2, 0, 0], 7, true);
    assert_eq!(p.coefficients, vec![1, 2]);
    let z = UnivariatePolynomial::new(vec![0, 0], 7, true);
    assert_eq!(z.coefficients, vec![0]);
    let u = UnivariatePolynomial::new(vec![8, 0], 7, false);
    assert_eq!(u.coefficients, vec![1, 0]);
    assert_eq!(u.degree(), Some(0));
    assert_eq!(z.degree(), None);
}

#[test]
fn upoly_add_sub_mul() {
    let a = UnivariatePolynomial::new(vec![1, 2, 3], 7, true);
    let b = UnivariatePolynomial::new(vec![6, 5], 7, true);
    assert_eq!(a.add(&b).unwrap().coefficients, vec![0, 0, 3]);
    assert_eq!(a.sub(&b).unwrap().coefficients, vec![2, 4, 3]);
    // (1 + 2x + 3x^2)(6 + 5x) = 6 + 17x + 28x^2 + 15x^3
    assert_eq!(a.mul(&b).unwrap().coefficients, vec![6, 3, 0, 1]);
    assert_eq!(a.scalar_mul(3).coefficients, vec![3, 6, 2]);
}

#[test]
fn upoly_divmod_exact() {
    // x^2 + 3x + 2 = (x + 2)(x + 1)
    let a = UnivariatePolynomial::new(vec![2, 3, 1], 7, true);
    let b = UnivariatePolynomial::new(vec![1, 1], 7, true);
    let (q, r) = a.divmod(&b).unwrap();
    assert_eq!(q.coefficients, vec![2, 1]);
    assert_eq!(r.coefficients, vec![0]);
}

#[test]
fn upoly_divmod_law_on_values() {
    let m = 101;
    let a = UnivariatePolynomial::new(vec![5, 0, 7, 3, 9, 1], m, true);
    let b = UnivariatePolynomial::new(vec![4, 2, 3], m, true);
    let (q, r) = a.divmod(&b).unwrap();
    let back = q.mul(&b).unwrap().add(&r).unwrap();
    assert_eq!(back.coefficients, a.coefficients);
    assert!(r.degree().map_or(true, |d| d < 2));
}

#[test]
fn upoly_divmod_errors() {
    let a = UnivariatePolynomial::new(vec![1, 1], 8, true);
    let zero = UnivariatePolynomial::new(vec![0], 8, true);
    assert_eq!(a.divmod(&zero).unwrap_err(), AlgebraError::DivByZeroPoly);
    let b = UnivariatePolynomial::new(vec![1, 2], 8, true);
    assert_eq!(a.divmod(&b).unwrap_err(), AlgebraError::NotInvertible);
    let c = UnivariatePolynomial::new(vec![1, 1], 7, true);
    assert_eq!(a.divmod(&c).unwrap_err(), AlgebraError::DomainMismatch);
}

fn kyber_root() -> u64 {
    // 17 has order 256 modulo 3329, so 17^16 has order 16.
    pow_mod(17, 16, 3329)
}

#[test]
fn ntt_round_trip_n8_q3329() {
    let ctx = NTT::new(8, 3329, kyber_root(), NTT_Algorithm::NegativeConvolution).unwrap();
    let v: Vec<u64> = vec![1, 2, 3, 4, 5, 6, 7, 8];
    let w = ctx.to_ntt(&v).unwrap();
    assert_ne!(w, v);
    assert_eq!(ctx.from_ntt(&w).unwrap(), v);
}

#[test]
fn ntt_round_trip_cyclic() {
    let root = pow_mod(17, 32, 3329); // order 8
    let ctx = NTTFactory::init(8, 3329, root, NTT_Algorithm::Iterative).unwrap();
    let v: Vec<u64> = vec![3328, 0, 17, 4, 1000, 6, 7, 2];
    let w = ctx.to_ntt(&v).unwrap();
    assert_eq!(ctx.from_ntt(&w).unwrap(), v);
}

#[test]
fn ntt_forward_values() {
    // Negacyclic: output k is v evaluated at root^(2k+1).
    let root = kyber_root();
    let ctx = NTT::new(8, 3329, root, NTT_Algorithm::NegativeConvolution).unwrap();
    let v: Vec<u64> = vec![0, 1, 0, 0, 0, 0, 0, 0];
    let w = ctx.to_ntt(&v).unwrap();
    for k in 0..8u64 {
        assert_eq!(w[k as usize], pow_mod(root, 2 * k + 1, 3329));
    }
}

#[test]
fn ntt_rejects_bad_parameters() {
    assert_eq!(NTT::new(8, 3328, 17, NTT_Algorithm::NegativeConvolution).unwrap_err(), AlgebraError::BadParameters);
    assert_eq!(NTT::new(6, 3329, 17, NTT_Algorithm::NegativeConvolution).unwrap_err(), AlgebraError::BadParameters);
    // 17 has order 256, not 16.
    assert_eq!(NTT::new(8, 3329, 17, NTT_Algorithm::NegativeConvolution).unwrap_err(), AlgebraError::BadParameters);
    let ctx = NTT::new(8, 3329, kyber_root(), NTT_Algorithm::NegativeConvolution).unwrap();
    assert_eq!(ctx.to_ntt(&vec![1, 2, 3]).unwrap_err(), AlgebraError::LengthMismatch);
    assert_eq!(ctx.from_ntt(&vec![1, 2, 3]).unwrap_err(), AlgebraError::LengthMismatch);
}

fn negacyclic_ring() -> PolynomialRing {
    let mut phi = vec![0u64; 9];
    phi[0] = 1;
    phi[8] = 1;
    let phi = UnivariatePolynomial::new(phi, 3329, false);
    let ring = PolynomialRing::new(phi, true).unwrap();
    let ctx = NTT::new(8, 3329, kyber_root(), NTT_Algorithm::NegativeConvolution).unwrap();
    ring.get_ntt_enabled_ring(ctx).unwrap()
}

fn elem(c: Vec<u64>) -> PolynomialRingInstance {
    PolynomialRingInstance { coefficients: c, ntt_form: false }
}

#[test]
fn rq_multiplication_both_paths() {
    let ring = negacyclic_ring();
    let a = elem(vec![1, 1, 0, 0, 0, 0, 0, 0]);
    let b = elem(vec![1, 3328, 0, 0, 0, 0, 0, 0]);
    let expected: Vec<u64> = vec![1, 0, 3328, 0, 0, 0, 0, 0];
    let school = ring.mul(&a, &b).unwrap();
    assert_eq!(school.coefficients, expected);
    let an = ring.apply_ntt_ctxt(&a).unwrap();
    let bn = ring.apply_ntt_ctxt(&b).unwrap();
    let prod = ring.mul(&an, &bn).unwrap();
    let back = ring.from_ntt_ctxt(&prod, true).unwrap();
    assert_eq!(back.coefficients, expected);
}

#[test]
fn rq_multiplication_wraps_negacyclically() {
    let ring = negacyclic_ring();
    // x^7 * x = x^8 = -1
    let a = elem(vec![0, 0, 0, 0, 0, 0, 0, 1]);
    let b = elem(vec![0, 1, 0, 0, 0, 0, 0, 0]);
    let school = ring.mul(&a, &b).unwrap();
    assert_eq!(school.coefficients, vec![3328, 0, 0, 0, 0, 0, 0, 0]);
    let an = ring.apply_ntt_ctxt(&a).unwrap();
    let bn = ring.apply_ntt_ctxt(&b).unwrap();
    let back = ring.from_ntt_ctxt(&ring.mul(&an, &bn).unwrap(), true).unwrap();
    assert_eq!(back.coefficients, school.coefficients);
}

#[test]
fn rq_mul_agrees_across_bases_on_values() {
    let ring = negacyclic_ring();
    let a = elem(vec![12, 3000, 7, 0, 45, 1, 2, 3328]);
    let b = elem(vec![5, 6, 7, 8, 9, 10, 11, 12]);
    let school = ring.mul(&a, &b).unwrap();
    let an = ring.apply_ntt_ctxt(&a).unwrap();
    let bn = ring.apply_ntt_ctxt(&b).unwrap();
    let back = ring.from_ntt_ctxt(&ring.mul(&an, &bn).unwrap(), true).unwrap();
    assert_eq!(back.coefficients, school.coefficients);
}

#[test]
fn rq_basis_errors() {
    let ring = negacyclic_ring();
    let a = elem(vec![1, 0, 0, 0, 0, 0, 0, 0]);
    let an = ring.apply_ntt_ctxt(&a).unwrap();
    assert!(!ring.mul(&a, &an).unwrap().ntt_form);
    assert_eq!(ring.apply_ntt_ctxt(&an).unwrap_err(), AlgebraError::BadBasis);
    assert_eq!(ring.from_ntt_ctxt(&a, true).unwrap_err(), AlgebraError::BadBasis);
    let plain = PolynomialRing::new(UnivariatePolynomial::new(vec![1, 0, 1], 7, false), false).unwrap();
    let x = elem(vec![1, 2]);
    assert_eq!(plain.apply_ntt_ctxt(&x).unwrap_err(), AlgebraError::BadParameters);
}

#[test]
fn rq_apply_reduces_modulo_phi() {
    let ring = negacyclic_ring();
    // x^9 + 5 = -x + 5 modulo x^8 + 1
    let mut c = vec![0u64; 10];
    c[0] = 5;
    c[9] = 1;
    let u = UnivariatePolynomial::new(c, 3329, true);
    let r = ring.apply(&u, false).unwrap();
    assert_eq!(r.coefficients, vec![5, 3328, 0, 0, 0, 0, 0, 0]);
    let other = UnivariatePolynomial::new(vec![1], 17, true);
    assert_eq!(ring.apply(&other, false).unwrap_err(), AlgebraError::DomainMismatch);
}

#[test]
fn rq_add_sub_neg() {
    let ring = negacyclic_ring();
    let a = elem(vec![1, 2, 3, 4, 5, 6, 7, 8]);
    let b = elem(vec![3328, 3328, 0, 0, 0, 0, 0, 1]);
    assert_eq!(ring.add(&a, &b).coefficients, vec![0, 1, 3, 4, 5, 6, 7, 9]);
    assert_eq!(ring.sub(&a, &b).coefficients, vec![2, 3, 3, 4, 5, 6, 7, 7]);
    assert_eq!(ring.neg(&a).coefficients, vec![3328, 3327, 3326, 3325, 3324, 3323, 3322, 3321]);
}

#[test]
fn rq_base_decomposition_recomposes() {
    let ring = negacyclic_ring();
    let a = elem(vec![3328, 0, 1, 255, 256, 1000, 2047, 3000]);
    let pieces = ring.base_decompose(&a, 16).unwrap();
    assert_eq!(pieces.len(), 4); // ⌈log_16 3329⌉ + 1
    for k in 0..8 {
        let mut v: u64 = 0;
        let mut w: u64 = 1;
        for p in &pieces {
            assert!(p.coefficients[k] < 16);
            v += p.coefficients[k] * w;
            w *= 16;
        }
        assert_eq!(v, a.coefficients[k]);
    }
    assert_eq!(ring.base_decompose(&a, 1).unwrap_err(), AlgebraError::BadParameters);
}

#[test]
fn kyber_compress_decompress_one_bit_round_trip() {
    let q = 3329;
    let bits: Vec<u64> = vec![0, 1, 1, 0, 1, 0, 0, 1];
    let d = decompress(&bits, q, 1);
    assert_eq!(d, vec![0, 1664, 1664, 0, 1664, 0, 0, 1664]);
    assert_eq!(compress(&d, q, 1), bits);
}

#[test]
fn kyber_compress_values() {
    let q = 3329;
    assert_eq!(compress(&vec![0, 832, 833, 1664, 2496, 2497, 3328], q, 1), vec![0, 0, 1, 1, 1, 0, 0]);
    assert_eq!(compress(&vec![1664], q, 4), vec![8]);
}

#[test]
fn matrix_determinant_and_inverse() {
    let m = Matrix::new(vec![vec![2, 1], vec![5, 3]], 2, 2, 101).unwrap();
    // columns (2,1) and (5,3): det = 2*3 - 5*1 = 1
    assert_eq!(m.determinant(), 1);
    let inv = m.inverse().unwrap();
    assert_eq!(inv.values, vec![vec![3, 100], vec![96, 2]]);
    let singular = Matrix::new(vec![vec![1, 2], vec![2, 4]], 2, 2, 101).unwrap();
    assert_eq!(singular.determinant(), 0);
    assert_eq!(singular.inverse().unwrap_err(), AlgebraError::NotInvertible);
}

#[test]
fn matrix_determinant_3x3() {
    let m = Matrix::new(vec![vec![1, 0, 2], vec![3, 1, 0], vec![0, 4, 1]], 3, 3, 1000003).unwrap();
    // rows: (1 3 0), (0 1 4), (2 0 1): det = 1*(1-0) - 3*(0-8) + 0 = 25
    assert_eq!(m.determinant(), 25);
    let id = Matrix::identity_matrix(3, 1000003);
    assert_eq!(id.determinant(), 1);
    assert_eq!(Matrix::zero_matrix(3, 3, 7).determinant(), 0);
}

#[test]
fn matrix_shape_operations() {
    let mut m = Matrix::new(vec![vec![1, 2, 3], vec![4, 5, 6]], 3, 2, 10).unwrap();
    assert_eq!(m.get_dimension(), (3, 2));
    let t = m.transpose();
    assert_eq!(t.get_dimension(), (2, 3));
    assert_eq!(t.values, vec![vec![1, 4], vec![2, 5], vec![3, 6]]);
    m.inplace_transpose();
    assert_eq!(m.values, t.values);
    m.append_row(vec![7, 8, 9]);
    assert_eq!(m.values, vec![vec![1, 4, 7], vec![2, 5, 8], vec![3, 6, 9]]);
    m.prepend_row(vec![0, 0, 0]);
    assert_eq!(m.rows, 4);
    m.append_column(vec![1, 1, 1, 1]);
    m.prepend_column(vec![2, 2, 2, 2]);
    assert_eq!(m.columns, 5);
    assert_eq!(m.values[0], vec![2, 2, 2, 2]);
    assert_eq!(m.get_ith_vector(1).values, vec![0, 1, 4, 7]);
    let minor = m.get_minor_matrix(0, 0);
    assert_eq!(minor.values[0], vec![1, 4, 7]);
    assert_eq!(Matrix::new(vec![vec![1]], 2, 1, 10).unwrap_err(), AlgebraError::LengthMismatch);
}

#[test]
fn vector_norms_and_product() {
    let v = Vector::new(vec![1, 2, 3, 15], 11);
    assert_eq!(v.values, vec![1, 2, 3, 4]);
    assert_eq!(v.l_1_norm(), 10);
    assert_eq!(v.l_2_norm(), 30 % 11);
    assert_eq!(v.l_inf_norm(), 4);
    let w = Vector::new(vec![1, 1, 1, 1], 11);
    assert_eq!(v.element_wise_product(&w).unwrap(), 10);
    let short = Vector::new(vec![1], 11);
    assert_eq!(v.element_wise_product(&short).unwrap_err(), AlgebraError::LengthMismatch);
    let t = v.transpose();
    assert_eq!(t.get_dimension(), (1, 4));
}

#[test]
fn zq_division() {
    let z = Zmod::new(13).unwrap();
    let q = z.apply(5).div(&z.apply(7)).unwrap();
    assert_eq!(q.mul(&z.apply(7)).unwrap().value, 5);
    assert_eq!(q.value, 10);
    let z8 = Zmod::new(8).unwrap();
    assert_eq!(z8.apply(3).div(&z8.apply(2)), Err(AlgebraError::NotInvertible));
}

#[test]
fn rq_inverse_div_pow_in_evaluation_basis() {
    let ring = negacyclic_ring();
    let a = elem(vec![2, 1, 0, 0, 0, 0, 0, 0]);
    let an = ring.apply_ntt_ctxt(&a).unwrap();
    let inv = ring.inverse(&an).unwrap();
    let prod = ring.mul(&an, &inv).unwrap();
    assert_eq!(ring.from_ntt_ctxt(&prod, true).unwrap().coefficients, vec![1, 0, 0, 0, 0, 0, 0, 0]);
    let b = elem(vec![5, 0, 3, 0, 0, 0, 0, 1]);
    let bn = ring.apply_ntt_ctxt(&b).unwrap();
    let quotient = ring.div(&bn, &an).unwrap();
    let back = ring.mul(&quotient, &an).unwrap();
    assert_eq!(ring.from_ntt_ctxt(&back, true).unwrap().coefficients, b.coefficients);
    let sq = ring.pow(&an, 2).unwrap();
    let sq_school = ring.mul(&a, &a).unwrap();
    assert_eq!(ring.from_ntt_ctxt(&sq, true).unwrap().coefficients, sq_school.coefficients);
    let ai = ring.inverse(&a).unwrap();
    assert_eq!(ring.mul(&a, &ai).unwrap().coefficients, vec![1, 0, 0, 0, 0, 0, 0, 0]);
    assert_eq!(ring.pow(&a, 2).unwrap().coefficients, sq_school.coefficients);
    let q = ring.div(&b, &a).unwrap();
    assert_eq!(ring.mul(&q, &a).unwrap().coefficients, b.coefficients);
    assert_eq!(ring.one().coefficients, vec![1, 0, 0, 0, 0, 0, 0, 0]);
    let zero = ring.apply_ntt_ctxt(&ring.zero()).unwrap();
    assert_eq!(ring.inverse(&zero).unwrap_err(), AlgebraError::NotInvertible);
}

#[test]
fn matrix_and_vector_arithmetic() {
    let a = Matrix::new(vec![vec![1, 2], vec![3, 4]], 2, 2, 7).unwrap();
    let b = Matrix::new(vec![vec![6, 6], vec![1, 0]], 2, 2, 7).unwrap();
    assert_eq!(a.add(&b).unwrap().values, vec![vec![0, 1], vec![4, 4]]);
    assert_eq!(a.sub(&b).unwrap().values, vec![vec![2, 3], vec![2, 4]]);
    // rows of a: (1 3), (2 4); columns of b: (6 6), (1 0)
    assert_eq!(a.mul(&b).unwrap().values, vec![vec![24 % 7, 36 % 7], vec![1, 2]]);
    let c = Matrix::new(vec![vec![1, 2, 3]], 3, 1, 7).unwrap();
    assert_eq!(a.mul(&c).unwrap_err(), AlgebraError::LengthMismatch);
    assert_eq!(a.add(&c).unwrap_err(), AlgebraError::LengthMismatch);
    let v = Vector::new(vec![1, 2, 3], 7);
    let w = Vector::new(vec![6, 6, 6], 7);
    assert_eq!(v.add(&w).unwrap().values, vec![0, 1, 2]);
    assert_eq!(v.sub(&w).unwrap().values, vec![2, 3, 4]);
    assert_eq!(v.add(&Vector::new(vec![1], 7)).unwrap_err(), AlgebraError::LengthMismatch);
}

#[test]
fn rq_inverse_by_extended_gcd() {
    // Z_7[x]/(x^2 + 1): (1 + x)(4 + 3x) = 4 + 7x + 3x^2 = 1 + 0x
    let ring = PolynomialRing::new(UnivariatePolynomial::new(vec![1, 0, 1], 7, false), false).unwrap();
    let x = elem(vec![1, 1]);
    let y = ring.inverse(&x).unwrap();
    assert_eq!(y.coefficients, vec![4, 3]);
    let prod = ring.mul(&x, &y).unwrap();
    assert_eq!(prod.coefficients, vec![1]);
    // x^2 + 1 = (x + 3)(x + 4) mod 5, so x + 3 has no inverse modulo 5
    let ring5 = PolynomialRing::new(UnivariatePolynomial::new(vec![1, 0, 1], 5, false), false).unwrap();
    assert_eq!(ring5.inverse(&elem(vec![3, 1])).unwrap_err(), AlgebraError::NotInvertible);
    assert_eq!(ring5.pow(&elem(vec![3, 1]), 2).unwrap().coefficients, vec![3, 1]);
}

#[test]
fn ntt_search_helpers() {
    assert_eq!(NTT::root_from_draw(17, 3329, 256), Some(939)); // 17^13 mod 3329
    assert_eq!(NTT::root_from_draw(1, 3329, 256), None);
    assert!(NTT::accepts_ntt_prime(3329, 128));
    assert!(!NTT::accepts_ntt_prime(3329, 1024));
    assert!(!NTT::accepts_ntt_prime(3457, 1000));
    assert_eq!(NTT::get_nth_root_of_unity(3328, 16, 10), Err(AlgebraError::BadParameters));
    assert_eq!(NTT::get_nth_root_of_unity(3329, 6, 10), Err(AlgebraError::BadParameters));
    assert_eq!(NTT::get_nth_root_of_unity(3329, 16, 0), Ok(None));
    let z = NTT::get_nth_root_of_unity(3329, 16, 1000).unwrap().unwrap();
    assert_eq!(pow_mod(z, 16, 3329), 1);
    assert_eq!(pow_mod(z, 8, 3329), 3328);
    assert_eq!(NTT::generate_ntt_prime(0, 20, 100), None);
    assert_eq!(NTT::generate_ntt_prime(1 << 20, 20, 100), None);
}

#[test]
fn rq_base_decomposition_piece_count() {
    // q = 5, base 2: ceil(log_2 5) + 1 = 4 pieces
    let ring = PolynomialRing::new(UnivariatePolynomial::new(vec![1, 1], 5, false), false).unwrap();
    let pieces = ring.base_decompose(&elem(vec![4]), 2).unwrap();
    assert_eq!(pieces.len(), 4);
    assert_eq!(pieces[2].coefficients, vec![1]);
}

#[test]
fn ntt_butterflies_agree_with_direct_evaluation() {
    let q = 3329;
    let v: Vec<u64> = vec![5, 3000, 17, 0, 42, 1, 3328, 9];
    let cyc_root = pow_mod(17, 32, q); // order 8
    let naive = NTT::new(8, q, cyc_root, NTT_Algorithm::Naive).unwrap();
    for alg in [NTT_Algorithm::CooleyTukey, NTT_Algorithm::Iterative] {
        let ctx = NTT::new(8, q, cyc_root, alg).unwrap();
        let w = ctx.to_ntt(&v).unwrap();
        assert_eq!(w, naive.to_ntt(&v).unwrap());
        assert_eq!(ctx.from_ntt(&w).unwrap(), v);
    }
    let neg = NTT::new(8, q, kyber_root(), NTT_Algorithm::NegativeConvolution).unwrap();
    let w = neg.to_ntt(&v).unwrap();
    for k in 0..8u64 {
        let mut acc: u64 = 0;
        for t in 0..8u64 {
            acc = (acc + v[t as usize] * pow_mod(kyber_root(), (2 * k + 1) * t, q)) % q;
        }
        assert_eq!(w[k as usize], acc);
    }
    assert_eq!(neg.from_ntt(&w).unwrap(), v);
}

#[test]
fn root_search_accepts_any_order_dividing_q_minus_one() {
    // q = 7, order 3: the roots are 2 and 4
    let z = NTT::get_nth_root_of_unity(7, 3, 1000).unwrap().unwrap();
    assert!(z == 2 || z == 4);
    assert_eq!(pow_mod(z, 3, 7), 1);
    assert_ne!(pow_mod(z, 1, 7), 1);
    assert_eq!(NTT::root_from_draw(3, 7, 3), Some(2)); // 3^2 = 9 = 2
    assert_eq!(NTT::root_from_draw(6, 7, 3), None); // 6^2 = 1 has order 1
    // order 13 divides 3328
    let z = NTT::get_nth_root_of_unity(3329, 13, 1000).unwrap().unwrap();
    assert_eq!(pow_mod(z, 13, 3329), 1);
    assert_ne!(z, 1);
}

#[test]
fn rq_coefficient_inverse_through_transform() {
    let ring = negacyclic_ring();
    let x = elem(vec![3, 0, 1, 0, 0, 5, 0, 2]);
    let y = ring.inverse(&x).unwrap();
    assert_eq!(ring.mul(&x, &y).unwrap().coefficients, vec![1, 0, 0, 0, 0, 0, 0, 0]);
    // x - ψ vanishes at the evaluation point ψ, so it is not a unit
    let z = elem(vec![3329 - kyber_root(), 1, 0, 0, 0, 0, 0, 0]);
    assert_eq!(ring.inverse(&z).unwrap_err(), AlgebraError::NotInvertible);
    assert_eq!(ring.div(&x, &z).unwrap_err(), AlgebraError::NotInvertible);
}

#[test]
fn matrix_vector_product() {
    // rows (1 3), (2 4) times (5, 6)
    let a = Matrix::new(vec![vec![1, 2], vec![3, 4]], 2, 2, 7).unwrap();
    let v = Vector::new(vec![5, 6], 7);
    let w = a.mul_vector(&v).unwrap();
    assert_eq!(w.values, vec![23 % 7, 34 % 7]);
    assert_eq!(a.mul_vector(&Vector::new(vec![1], 7)).unwrap_err(), AlgebraError::LengthMismatch);
}
