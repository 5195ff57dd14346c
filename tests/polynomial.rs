use kzg_commitment::field::Fr;
use kzg_commitment::poly::Poly;

fn fr(v: u64) -> Fr {
    Fr::from_u64(v)
}

fn poly(c: &[u64]) -> Poly {
    Poly::new(c.iter().map(|v| fr(*v)).collect())
}

fn same_coeffs(p: &Poly, c: &[u64]) -> bool {
    let got = p.coeffs();
    got.len() == c.len() && got.iter().zip(c.iter()).all(|(a, b)| a.equals(&fr(*b)))
}

#[test]
fn lagrange_passes_through_points() {
    let set = vec![(fr(1), fr(2)), (fr(2), fr(3)), (fr(3), fr(4)), (fr(4), fr(57))];
    let p = Poly::lagrange(&set);
    assert!(p.coeffs().len() <= 4);
    for (x, y) in &set {
        assert!(p.evaluate(x).equals(y));
    }
}

#[test]
fn lagrange_of_collinear_points_is_a_line() {
    let p = Poly::lagrange(&vec![(fr(0), fr(1)), (fr(1), fr(3)), (fr(2), fr(5))]);
    assert!(same_coeffs(&p, &[1, 2]));
}

#[test]
fn lagrange_of_no_points_is_zero() {
    let p = Poly::lagrange(&vec![]);
    assert!(p.is_zero());
}

#[test]
fn lagrange_single_point_is_constant() {
    let p = Poly::lagrange(&vec![(fr(9), fr(4))]);
    assert!(same_coeffs(&p, &[4]));
}

#[test]
fn division_identity_holds() {
    let a = poly(&[5, 2, 0, 1]);
    let b = poly(&[7, 3]);
    let (q, r) = a.div(&b);
    assert!(r.coeffs().len() < b.coeffs().len());
    for x in 0..6u64 {
        let x = fr(x);
        let lhs = a.evaluate(&x);
        let rhs = q.evaluate(&x).mul(&b.evaluate(&x)).add(&r.evaluate(&x));
        assert!(lhs.equals(&rhs));
    }
    let back = q.mul(&b).add(&r);
    assert!(same_coeffs(&back, &[5, 2, 0, 1]));
}

#[test]
fn exact_division_has_zero_remainder() {
    let a = poly(&[2, 3, 1]);
    let b = poly(&[1, 1]);
    let (q, r) = a.div(&b);
    assert!(r.is_zero());
    assert!(same_coeffs(&q, &[2, 1]));
}

#[test]
fn division_by_higher_degree_keeps_dividend() {
    let a = poly(&[4, 1]);
    let b = poly(&[1, 0, 1]);
    let (q, r) = a.div(&b);
    assert!(q.is_zero());
    assert!(same_coeffs(&r, &[4, 1]));
}

#[test]
fn multiplication_convolves() {
    let p = poly(&[1, 1]).mul(&poly(&[2, 1]));
    assert!(same_coeffs(&p, &[2, 3, 1]));
    assert!(poly(&[1, 2]).mul(&Poly::zero()).is_zero());
}

#[test]
fn addition_and_subtraction_pad_and_trim() {
    let s = poly(&[1, 2, 3]).add(&poly(&[4]));
    assert!(same_coeffs(&s, &[5, 2, 3]));
    let d = poly(&[1, 2, 3]).sub(&poly(&[1, 2, 3]));
    assert!(d.is_zero());
    let w = poly(&[0]).sub(&poly(&[1]));
    assert!(w.coeffs()[0].equals(&fr(1).neg()));
}

#[test]
fn new_trims_trailing_zeros() {
    let p = poly(&[3, 0, 0]);
    assert_eq!(p.coeffs().len(), 1);
    assert!(poly(&[0, 0]).is_zero());
    assert!(!Poly::one().is_zero());
    assert!(Poly::zero().is_zero());
}

#[test]
fn field_operations_reduce() {
    assert!(fr(2).add(&fr(3)).equals(&fr(5)));
    assert!(fr(6).mul(&fr(7)).equals(&fr(42)));
    assert!(fr(3).sub(&fr(5)).add(&fr(2)).is_zero());
    assert!(fr(5).neg().add(&fr(5)).is_zero());
    assert!(fr(7).invert().unwrap().mul(&fr(7)).equals(&Fr::one()));
    assert!(!fr(7).invert().unwrap().equals(&fr(7)));
    assert!(Fr::from_raw([9, 0, 0, 0]).equals(&fr(9)));
    assert!(!fr(1).is_zero());
    assert!(Fr::zero().is_zero());
    assert!(Fr::zero().invert().is_none());
}

#[test]
fn from_raw_reduces_by_modulus() {
    let modulus = [0xffff_ffff_0000_0001, 0x53bd_a402_fffe_5bfe, 0x3339_d808_09a1_d805, 0x73ed_a753_299d_7d48];
    assert!(Fr::from_raw(modulus).is_zero());
    let plus_one = [0xffff_ffff_0000_0002, modulus[1], modulus[2], modulus[3]];
    assert!(Fr::from_raw(plus_one).equals(&Fr::one()));
}
