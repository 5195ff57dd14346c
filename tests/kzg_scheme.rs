use kzg_commitment::field::Fr;
use kzg_commitment::kzg::{KzgError, KZG};
use kzg_commitment::poly::Poly;
use bls12_381::{G1Affine, G2Affine, Scalar};

fn fr(v: u64) -> Fr {
    Fr::from_u64(v)
}

fn sample_set() -> Vec<(Fr, Fr)> {
    vec![(fr(1), fr(2)), (fr(2), fr(3)), (fr(3), fr(4)), (fr(4), fr(57))]
}

#[test]
fn correct_proof_accepted() {
    let kzg = KZG::setup(5);
    let set = sample_set();
    let (poly, commitment) = kzg.poly_commitment_from_set(&set).unwrap();
    let subset = vec![set[0], set[1]];
    let proof = kzg.prove(&poly, &subset).unwrap();
    assert!(kzg.verify(&commitment, &subset, &proof));
}

#[test]
fn insufficient_subset_rejected() {
    let kzg = KZG::setup(5);
    let set = sample_set();
    let (poly, commitment) = kzg.poly_commitment_from_set(&set).unwrap();
    let proof = kzg.prove(&poly, &vec![set[0], set[1]]).unwrap();
    assert!(!kzg.verify(&commitment, &vec![set[0]], &proof));
}

#[test]
fn wrong_point_rejected() {
    let kzg = KZG::setup(5);
    let set = sample_set();
    let (poly, commitment) = kzg.poly_commitment_from_set(&set).unwrap();
    let proof = kzg.prove(&poly, &vec![set[0], set[1]]).unwrap();
    assert!(!kzg.verify(&commitment, &vec![set[0], set[2]], &proof));
}

#[test]
fn full_set_proof_accepted() {
    let kzg = KZG::setup(5);
    let set = sample_set();
    let (poly, commitment) = kzg.poly_commitment_from_set(&set).unwrap();
    let proof_full = kzg.prove(&poly, &set).unwrap();
    assert!(kzg.verify(&commitment, &set, &proof_full));
}

#[test]
fn single_point_proof_accepted() {
    let kzg = KZG::setup(5);
    let set = sample_set();
    let (poly, commitment) = kzg.poly_commitment_from_set(&set).unwrap();
    let proof = kzg.prove(&poly, &vec![set[3]]).unwrap();
    assert!(kzg.verify(&commitment, &vec![set[3]], &proof));
    assert!(!kzg.verify(&commitment, &vec![(fr(4), fr(58))], &proof));
}

#[test]
fn prove_rejects_point_off_polynomial() {
    let kzg = KZG::setup(5);
    let set = sample_set();
    let (poly, _) = kzg.poly_commitment_from_set(&set).unwrap();
    let r = kzg.prove(&poly, &vec![(fr(1), fr(2)), (fr(2), fr(4))]);
    assert!(matches!(r, Err(KzgError::NotOnPolynomial)));
}

#[test]
fn prove_rejects_degree_beyond_setup() {
    let kzg = KZG::setup(2);
    let poly = Poly::new(vec![fr(1), fr(1), fr(1), fr(1)]);
    let r = kzg.prove(&poly, &vec![(fr(0), fr(1))]);
    assert!(matches!(r, Err(KzgError::DegreeTooLarge)));
}

#[test]
fn commitments_of_distinct_polynomials_differ() {
    let kzg = KZG::setup(5);
    for _ in 0..8 {
        let a: Vec<(Fr, Fr)> = (1..5u64).map(|x| (fr(x), Fr::from_raw(rand::random()))).collect();
        let mut b = a.clone();
        b[2] = (fr(3), b[2].1.add(&fr(1)));
        let (_, ca) = kzg.poly_commitment_from_set(&a).unwrap();
        let (_, cb) = kzg.poly_commitment_from_set(&b).unwrap();
        assert!(!ca.equals(&cb));
    }
}

#[test]
fn equal_polynomials_equal_commitments() {
    let kzg = KZG::setup(4);
    let (_, ca) = kzg.poly_commitment_from_set(&vec![(fr(1), fr(5)), (fr(2), fr(7))]).unwrap();
    let (_, cb) = kzg.poly_commitment_from_set(&vec![(fr(2), fr(7)), (fr(1), fr(5))]).unwrap();
    assert!(ca.equals(&cb));
}

#[test]
fn setup_lengths_match() {
    for n in 1..7usize {
        let kzg = KZG::setup(n);
        assert_eq!(kzg.pow_tau_g1.len(), n);
        assert_eq!(kzg.pow_tau_g2.len(), n);
    }
}

#[test]
fn setup_first_powers_are_generators() {
    let kzg = KZG::setup(3);
    assert_eq!(kzg.pow_tau_g1[0].to_bytes(), G1Affine::generator().to_compressed());
    assert_eq!(kzg.pow_tau_g2[0].to_bytes(), G2Affine::generator().to_compressed());
}

#[test]
fn full_set_proof_is_identity() {
    let kzg = KZG::setup(5);
    let set = sample_set();
    let (poly, _) = kzg.poly_commitment_from_set(&set).unwrap();
    let proof_full = kzg.prove(&poly, &set).unwrap();
    assert_eq!(proof_full.to_bytes(), G1Affine::identity().to_compressed());
}

#[test]
fn setup_from_words_gives_powers() {
    let kzg = KZG::setup_from_words(3, [3, 0, 0, 0]);
    let nine = G1Affine::from(G1Affine::generator() * Scalar::from(9u64)).to_compressed();
    assert_eq!(kzg.pow_tau_g1[2].to_bytes(), nine);
    let three = G2Affine::from(G2Affine::generator() * Scalar::from(3u64)).to_compressed();
    assert_eq!(kzg.pow_tau_g2[1].to_bytes(), three);
    let again = KZG::setup_from_words(3, [3, 0, 0, 0]);
    assert!(again.pow_tau_g1[1].equals(&kzg.pow_tau_g1[1]));
}

#[test]
fn two_point_proof_is_quotient_commitment() {
    let kzg = KZG::setup_from_words(5, [11, 0, 0, 0]);
    let set = sample_set();
    let (poly, _) = kzg.poly_commitment_from_set(&set).unwrap();
    let proof = kzg.prove(&poly, &vec![set[0], set[1]]).unwrap();
    let tau = Scalar::from(11u64);
    let q_tau = Scalar::from(26u64) * Scalar::from(3u64).invert().unwrap() * tau - Scalar::from(26u64);
    let expected = G1Affine::from(G1Affine::generator() * q_tau).to_compressed();
    assert_eq!(proof.to_bytes(), expected);
}

#[test]
fn commitment_of_collinear_set_beyond_setup_size() {
    let kzg = KZG::setup(2);
    let set: Vec<(Fr, Fr)> = (0..4u64).map(|x| (fr(x), fr(2 * x + 1))).collect();
    let (poly, _) = kzg.poly_commitment_from_set(&set).unwrap();
    assert_eq!(poly.coeffs().len(), 2);
    let wide: Vec<(Fr, Fr)> = (0..4u64).map(|x| (fr(x), fr(x * x * x))).collect();
    assert!(matches!(kzg.poly_commitment_from_set(&wide), Err(KzgError::DegreeTooLarge)));
}

#[test]
fn prove_rejects_long_polynomial_even_with_one_point() {
    let kzg = KZG::setup(2);
    let poly = Poly::new(vec![fr(0), fr(0), fr(1)]);
    let r = kzg.prove(&poly, &vec![(fr(2), fr(4))]);
    assert!(matches!(r, Err(KzgError::DegreeTooLarge)));
}
