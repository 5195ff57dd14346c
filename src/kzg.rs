//! The KZG commitment scheme: trusted setup, commitments, evaluation proofs and their check.
use crate::field::{field_modulus, limbs_value, Fr};
use crate::group::{
    g1_combination, g1_diff_of, g1_gen_scale, g1_gen_scale_of, g1_scale, g1_sum, g2_combination, g2_gen_scale,
    g2_gen_scale_of, g2_scale, g2_sum, pairings_agree, pairings_agree_of, G1, G2, g1_diff,
};
use crate::poly::{
    all_wf, canonical, trimmed, lemma_eval_linear, lemma_diff_nonzero, lemma_eval_range, lemma_vanishing_everywhere_zero, coeff, distinct_points, eval, lemma_add_cong, lemma_eval_pair, lemma_mod_idem, lemma_modulus_pos,
    lemma_mul_cong, product_coeff, values, Poly,
};
use vstd::arithmetic::div_mod::{lemma_mod_bound, lemma_small_mod};
use vstd::arithmetic::mul::lemma_mul_is_commutative;
use vstd::arithmetic::power::{lemma_pow0, pow};
use vstd::prelude::*;

verus! {

/// A proof of evaluation: a point of G1.
pub type Proof = G1;

/// A commitment to a polynomial: a point of G1.
pub type Commitment = G1;

/// Why no proof or commitment could be made.
#[derive(Clone, Copy, Debug, PartialEq, Eq, Structural)]
pub enum KzgError {
    /// The polynomial does not take the given value at one of the given points.
    NotOnPolynomial,
    /// The polynomial has more coefficients than the setup has powers.
    DegreeTooLarge,
}

/// Relies on `rand::random`: a random 64-bit word from the thread-local generator.
#[verifier::external_body]
fn random_u64() -> (r: u64) {
    rand::random()
}

/// The value at `x` of the product of `x - x_j` over the points, reduced by the field modulus.
pub open spec fn vanishing_at(points: Seq<(Fr, Fr)>, x: int) -> int
    decreases points.len(),
{
    if points.len() == 0 {
        1
    } else {
        ((x - points.last().0.val()) * vanishing_at(points.drop_last(), x)) % field_modulus()
    }
}

/// The vanishing polynomial is zero at every point's `x`.
pub proof fn lemma_vanishing_roots(points: Seq<(Fr, Fr)>, t: int)
    requires
        0 <= t < points.len(),
    ensures
        vanishing_at(points, points[t].0.val()) == 0,
    decreases points.len(),
{
    let x = points[t].0.val();
    if t == points.len() - 1 {
        assert((x - points.last().0.val()) == 0);
        assert(0 * vanishing_at(points.drop_last(), x) == 0);
    } else {
        assert(points.drop_last()[t] == points[t]);
        lemma_vanishing_roots(points.drop_last(), t);
        assert((x - points.last().0.val()) * 0 == 0);
    }
}


/// The encodings of a sequence of G1 points.
pub open spec fn g1_encs(v: Seq<G1>) -> Seq<Seq<u8>> {
    v.map_values(|p: G1| p.enc())
}

/// The encodings of a sequence of G2 points.
pub open spec fn g2_encs(v: Seq<G2>) -> Seq<Seq<u8>> {
    v.map_values(|p: G2| p.enc())
}

/// The polynomial passes through every point.
pub open spec fn on_polynomial(p: Seq<int>, points: Seq<(Fr, Fr)>) -> bool {
    forall|t: int| 0 <= t < points.len() ==> #[trigger] eval(p, points[t].0.val()) == points[t].1.val()
}

/// `i` is an interpolant of the points: canonical coefficients without trailing zeros, at
/// most as many as there are points, through each of them.
pub open spec fn interpolates(i: Seq<int>, points: Seq<(Fr, Fr)>) -> bool {
    &&& i.len() <= points.len()
    &&& canonical(i)
    &&& trimmed(i)
    &&& on_polynomial(i, points)
}

/// `z` is the vanishing polynomial of the points: monic, of degree their number, the product
/// of `x - x_j`.
pub open spec fn vanishes(z: Seq<int>, points: Seq<(Fr, Fr)>) -> bool {
    &&& z.len() == points.len() + 1
    &&& z.last() == 1
    &&& canonical(z)
    &&& forall|x: int| #[trigger] eval(z, x) == vanishing_at(points, x)
}

/// `q` is the exact quotient of `a - i` by `z`, for the interpolant `i` and the vanishing
/// polynomial `z` of the points: `a - i == q * z` coefficient by coefficient, with `q`
/// canonical and without trailing zeros.
pub open spec fn is_quotient(a: Seq<int>, points: Seq<(Fr, Fr)>, q: Seq<int>, i: Seq<int>, z: Seq<int>) -> bool {
    &&& interpolates(i, points)
    &&& vanishes(z, points)
    &&& canonical(q)
    &&& trimmed(q)
    &&& forall|k: int| 0 <= k ==> (coeff(a, k) - coeff(i, k)) % field_modulus() == #[trigger] product_coeff(q, z, k) % field_modulus()
}

/// `row[j]` inverts `x_j - x_t` for every `j < t`.
pub open spec fn inverts_row(points: Seq<(Fr, Fr)>, row: Seq<Fr>, t: int) -> bool {
    &&& row.len() == t
    &&& forall|j: int| 0 <= j < t ==> ((points[j].0.val() - points[t].0.val()) * #[trigger] row[j].val()) % field_modulus() == 1
}

/// The x values of the points.
pub open spec fn xs_of(points: Seq<(Fr, Fr)>) -> Seq<int> {
    points.map_values(|p: (Fr, Fr)| p.0.val())
}

/// Two interpolants of the same points are equal, given an inverse of the difference of each
/// pair of points.
pub proof fn lemma_interpolant_unique(points: Seq<(Fr, Fr)>, a: Seq<int>, b: Seq<int>, inv: spec_fn(int, int) -> int)
    requires
        distinct_points(points),
        interpolates(a, points),
        interpolates(b, points),
        forall|t: int, j: int| 0 <= j < t < points.len() ==> ((xs_of(points)[j] - xs_of(points)[t]) * #[trigger] inv(j, t)) % field_modulus() == 1,
    ensures
        a == b,
{
    let m = field_modulus();
    lemma_modulus_pos();
    let xs = xs_of(points);
    let n = if a.len() >= b.len() { a.len() } else { b.len() };
    let d = Seq::new(n, |k: int| (coeff(a, k) - coeff(b, k)) % m);
    assert forall|k: int| 0 <= k < d.len() implies 0 <= #[trigger] d[k] < m by {
        lemma_mod_bound(coeff(a, k) - coeff(b, k), m);
    }
    assert forall|k: int| 0 <= k implies #[trigger] coeff(d, k) == (1 * coeff(a, k) + (-1) * coeff(b, k)) % m by {
        if k >= n {
            lemma_small_mod(0, m as nat);
        }
    }
    assert forall|t: int| 0 <= t < xs.len() implies #[trigger] eval(d, xs[t]) == 0 by {
        let x = points[t].0.val();
        assert(xs[t] == x);
        lemma_eval_linear(d, a, b, 1, -1, x);
        assert(eval(a, x) == points[t].1.val());
        assert(eval(b, x) == points[t].1.val());
        lemma_small_mod(0, m as nat);
    }
    lemma_vanishing_everywhere_zero(d, xs, inv);
    assert forall|k: int| 0 <= k implies #[trigger] coeff(a, k) == coeff(b, k) by {
        assert(coeff(d, k) % m == 0);
        let (ak, bk) = (coeff(a, k), coeff(b, k));
        if k < n {
            lemma_mod_idem(ak - bk);
        } else {
            assert(ak == 0 && bk == 0);
        }
        if 0 <= k < a.len() {
            assert(0 <= a[k] < m);
        }
        if 0 <= k < b.len() {
            assert(0 <= b[k] < m);
        }
        if ak != bk {
            lemma_diff_nonzero(ak, bk);
        }
    }
    if a.len() > b.len() {
        assert(coeff(a, a.len() - 1) == coeff(b, a.len() - 1));
    }
    if b.len() > a.len() {
        assert(coeff(a, b.len() - 1) == coeff(b, b.len() - 1));
    }
    assert forall|k: int| 0 <= k < a.len() implies a[k] == b[k] by {
        assert(coeff(a, k) == coeff(b, k));
    }
    assert(a =~= b);
}

/// The trusted setup: the powers `tau^i` of a secret scalar, times each group's generator.
#[derive(Debug)]
pub struct KZG {
    pub pow_tau_g1: Vec<G1>,
    pub pow_tau_g2: Vec<G2>,
}

impl KZG {
    /// Both power sequences hold the same, non-zero, number of valid points.
    pub open spec fn wf(&self) -> bool {
        &&& self.pow_tau_g1@.len() == self.pow_tau_g2@.len()
        &&& self.pow_tau_g1@.len() >= 1
        &&& forall|i: int| 0 <= i < self.pow_tau_g1@.len() ==> (#[trigger] self.pow_tau_g1@[i]).wf()
        &&& forall|i: int| 0 <= i < self.pow_tau_g2@.len() ==> (#[trigger] self.pow_tau_g2@[i]).wf()
    }

    /// The number of powers, one more than the largest degree the setup supports.
    pub open spec fn size(&self) -> nat {
        self.pow_tau_g1@.len()
    }

    /// The setup holds `n` powers of `tau`: `[tau^i]` times the G1 and the G2 generator.
    pub open spec fn is_setup_for(&self, n: nat, tau: int) -> bool {
        &&& self.pow_tau_g1@.len() == n
        &&& self.pow_tau_g2@.len() == n
        &&& forall|i: int| 0 <= i < n ==> (#[trigger] self.pow_tau_g1@[i]).enc() == g1_gen_scale_of(pow(tau, i as nat) % field_modulus())
        &&& forall|i: int| 0 <= i < n ==> (#[trigger] self.pow_tau_g2@[i]).enc() == g2_gen_scale_of(pow(tau, i as nat) % field_modulus())
    }

    /// The value of the pairing check for the interpolant `i` and vanishing polynomial `z`:
    /// `e(proof, [z(tau)]_2) == e(commitment - [i(tau)]_1, g2)`.
    pub open spec fn pairing_check(&self, commitment: Seq<u8>, proof: Seq<u8>, i: Seq<int>, z: Seq<int>) -> bool {
        pairings_agree_of(
            proof,
            g2_combination(g2_encs(self.pow_tau_g2@), z),
            g1_diff_of(commitment, g1_combination(g1_encs(self.pow_tau_g1@), i)),
            g2_gen_scale_of(1),
        )
    }

    /// Samples a secret `tau` and builds the setup of `n` powers from it. The secret lives only
    /// in this call.
    pub fn setup(n: usize) -> (r: Self)
        requires
            n >= 1,
        ensures
            r.wf(),
            exists|tau: int| 0 <= tau < field_modulus() && #[trigger] r.is_setup_for(n as nat, tau),
    {
        let words: [u64; 4] = [random_u64(), random_u64(), random_u64(), random_u64()];
        let r = Self::setup_from_words(n, words);
        proof {
            let tau = limbs_value(words@) % field_modulus();
            lemma_modulus_pos();
            lemma_mod_bound(limbs_value(words@), field_modulus());
            assert(r.is_setup_for(n as nat, tau));
        }
        r
    }

    /// The setup of `n` powers for the secret `tau` that the four little-endian words give,
    /// reduced by the field modulus.
    pub fn setup_from_words(n: usize, words: [u64; 4]) -> (r: Self)
        requires
            n >= 1,
        ensures
            r.wf(),
            r.is_setup_for(n as nat, limbs_value(words@) % field_modulus()),
    {
        let tau = Fr::from_raw(words);
        let ghost t = tau.val();
        let mut pow_tau_g1: Vec<G1> = Vec::new();
        let mut pow_tau_g2: Vec<G2> = Vec::new();
        let mut power = Fr::one();
        proof {
            lemma_pow0(t);
            lemma_modulus_pos();
            lemma_small_mod(1, field_modulus() as nat);
        }
        let mut i: usize = 0;
        while i < n
            invariant
                i <= n,
                tau.wf(),
                t == tau.val(),
                power.wf(),
                power.val() == pow(t, i as nat) % field_modulus(),
                pow_tau_g1@.len() == i,
                pow_tau_g2@.len() == i,
                forall|j: int| 0 <= j < i ==> (#[trigger] pow_tau_g1@[j]).wf() && pow_tau_g1@[j].enc() == g1_gen_scale_of(pow(t, j as nat) % field_modulus()),
                forall|j: int| 0 <= j < i ==> (#[trigger] pow_tau_g2@[j]).wf() && pow_tau_g2@[j].enc() == g2_gen_scale_of(pow(t, j as nat) % field_modulus()),
            decreases n - i,
        {
            pow_tau_g1.push(g1_gen_scale(&power));
            pow_tau_g2.push(g2_gen_scale(&power));
            let next = power.mul(&tau);
            proof {
                let m = field_modulus();
                let pw = pow(t, i as nat);
                assert(pow(t, (i + 1) as nat) == t * pw) by {
                    reveal(pow);
                }
                lemma_mod_idem(pw);
                lemma_mod_idem(t);
                lemma_mul_cong(power.val(), t, pw, t);
                lemma_mul_is_commutative(pw, t);
            }
            power = next;
            i = i + 1;
        }
        KZG { pow_tau_g1, pow_tau_g2 }
    }

    /// The vanishing polynomial of the points: the product of `x - x_j`, monic of degree
    /// the number of points.
    fn z_poly_of(points: &Vec<(Fr, Fr)>) -> (z: Poly)
        requires
            forall|i: int| 0 <= i < points@.len() ==> (#[trigger] points@[i]).0.wf(),
            points@.len() + 3 <= usize::MAX,
        ensures
            z.wf(),
            z@.len() == points@.len() + 1,
            z@.last() == 1,
            forall|x: int| #[trigger] eval(z@, x) == vanishing_at(points@, x),
    {
        let mut z = Poly::one();
        let mut j: usize = 0;
        proof {
            assert(points@.subrange(0, 0) =~= Seq::<(Fr, Fr)>::empty());
            assert forall|x: int| #[trigger] eval(z@, x) == vanishing_at(points@.subrange(0, 0), x) by {
                assert(seq![1int].drop_first() =~= Seq::<int>::empty());
                assert(eval(Seq::<int>::empty(), x) == 0);
                assert(x * 0 == 0);
                lemma_small_mod(1, field_modulus() as nat);
            }
        }
        while j < points.len()
            invariant
                forall|i: int| 0 <= i < points@.len() ==> (#[trigger] points@[i]).0.wf(),
                points@.len() + 3 <= usize::MAX,
                j <= points@.len(),
                z.wf(),
                z@.len() == j + 1,
                z@.last() == 1,
                forall|x: int| #[trigger] eval(z@, x) == vanishing_at(points@.subrange(0, j as int), x),
            decreases points@.len() - j,
        {
            let xj = points[j].0;
            assert(points@[j as int].0.wf());
            let one = Fr::one();
            let nxj = xj.neg();
            let mut fc: Vec<Fr> = Vec::new();
            fc.push(nxj);
            fc.push(one);
            proof {
                assert(values(fc@) =~= seq![nxj.val(), 1int]);
                assert forall|i: int| 0 <= i < fc@.len() implies (#[trigger] fc@[i]).wf() by {}
            }
            let f = Poly::new(fc);
            proof {
                assert(coeff(f@, 1) == 1);
                lemma_modulus_pos();
                lemma_small_mod(1, field_modulus() as nat);
                assert(f@.last() == 1);
                assert(z@.last() * f@.last() == 1);
            }
            let z2 = z.mul(&f);
            proof {
                let m = field_modulus();
                let pre = points@.subrange(0, j as int);
                let next = points@.subrange(0, j + 1);
                assert(next.drop_last() =~= pre);
                assert forall|x: int| #[trigger] eval(z2@, x) == vanishing_at(next, x) by {
                    let v = vanishing_at(pre, x);
                    lemma_eval_pair(nxj.val(), 1, x);
                    let fx = eval(f@, x);
                    assert(fx == (nxj.val() + x * 1) % m);
                    lemma_mod_idem(-xj.val());
                    lemma_add_cong(nxj.val(), x * 1, -xj.val(), x);
                    lemma_mod_idem(nxj.val() + x * 1);
                    lemma_mod_idem(v);
                    lemma_mul_cong(v, fx, v, x - xj.val());
                    assert(v * (x - xj.val()) == (x - xj.val()) * v) by (nonlinear_arith);
                }
            }
            z = z2;
            j = j + 1;
        }
        assert(points@.subrange(0, points@.len() as int) =~= points@);
        z
    }


    /// `sum poly[i] * pow_tau_g1[i]`: the polynomial evaluated at the secret, in G1.
    fn eval_at_tau_g1(&self, poly: &Poly) -> (r: G1)
        requires
            self.wf(),
            poly.wf(),
            poly@.len() <= self.pow_tau_g1@.len(),
        ensures
            r.wf(),
            r.enc() == g1_combination(g1_encs(self.pow_tau_g1@), poly@),
    {
        let coeffs = poly.coeffs();
        let ghost srs = g1_encs(self.pow_tau_g1@);
        let mut acc = g1_gen_scale(&Fr::zero());
        let mut i: usize = 0;
        proof {
            assert(poly@.subrange(0, 0) =~= Seq::<int>::empty());
        }
        while i < coeffs.len()
            invariant
                self.wf(),
                srs == g1_encs(self.pow_tau_g1@),
                all_wf(coeffs@),
                values(coeffs@) == poly@,
                coeffs@.len() <= self.pow_tau_g1@.len(),
                i <= coeffs@.len(),
                acc.wf(),
                acc.enc() == g1_combination(srs, poly@.subrange(0, i as int)),
            decreases coeffs@.len() - i,
        {
            assert(coeffs@[i as int].wf());
            assert(self.pow_tau_g1@[i as int].wf());
            let term = g1_scale(&self.pow_tau_g1[i], &coeffs[i]);
            acc = g1_sum(&acc, &term);
            proof {
                let sub = poly@.subrange(0, i + 1);
                assert(sub.drop_last() =~= poly@.subrange(0, i as int));
                assert(sub.last() == coeffs@[i as int].val());
                assert(srs[i as int] == self.pow_tau_g1@[i as int].enc());
            }
            i = i + 1;
        }
        assert(poly@.subrange(0, coeffs@.len() as int) =~= poly@);
        acc
    }

    /// `sum poly[i] * pow_tau_g2[i]`: the polynomial evaluated at the secret, in G2.
    fn eval_at_tau_g2(&self, poly: &Poly) -> (r: G2)
        requires
            self.wf(),
            poly.wf(),
            poly@.len() <= self.pow_tau_g2@.len(),
        ensures
            r.wf(),
            r.enc() == g2_combination(g2_encs(self.pow_tau_g2@), poly@),
    {
        let coeffs = poly.coeffs();
        let ghost srs = g2_encs(self.pow_tau_g2@);
        let mut acc = g2_gen_scale(&Fr::zero());
        let mut i: usize = 0;
        proof {
            assert(poly@.subrange(0, 0) =~= Seq::<int>::empty());
        }
        while i < coeffs.len()
            invariant
                self.wf(),
                srs == g2_encs(self.pow_tau_g2@),
                all_wf(coeffs@),
                values(coeffs@) == poly@,
                coeffs@.len() <= self.pow_tau_g2@.len(),
                i <= coeffs@.len(),
                acc.wf(),
                acc.enc() == g2_combination(srs, poly@.subrange(0, i as int)),
            decreases coeffs@.len() - i,
        {
            assert(coeffs@[i as int].wf());
            assert(self.pow_tau_g2@[i as int].wf());
            let term = g2_scale(&self.pow_tau_g2[i], &coeffs[i]);
            acc = g2_sum(&acc, &term);
            proof {
                let sub = poly@.subrange(0, i + 1);
                assert(sub.drop_last() =~= poly@.subrange(0, i as int));
                assert(sub.last() == coeffs@[i as int].val());
                assert(srs[i as int] == self.pow_tau_g2@[i as int].enc());
            }
            i = i + 1;
        }
        assert(poly@.subrange(0, coeffs@.len() as int) =~= poly@);
        acc
    }

    /// The polynomial through the points and its commitment, `sum p[i] * pow_tau_g1[i]`.
    /// Fails when that polynomial has more coefficients than the setup has powers.
    pub fn poly_commitment_from_set(&self, set: &Vec<(Fr, Fr)>) -> (r: Result<(Poly, Commitment), KzgError>)
        requires
            self.wf(),
            distinct_points(set@),
            set@.len() + 2 <= usize::MAX,
        ensures
            set@.len() <= self.size() ==> r is Ok,
            r matches Err(e) ==> e == KzgError::DegreeTooLarge
                && exists|i: Seq<int>| #[trigger] interpolates(i, set@) && i.len() > self.size(),
            r matches Err(e) ==> forall|i: Seq<int>| #[trigger] interpolates(i, set@) ==> i.len() > self.size(),
            r matches Ok((p, c)) ==> p.wf() && interpolates(p@, set@) && p@.len() <= self.size() && c.wf()
                && c.enc() == g1_combination(g1_encs(self.pow_tau_g1@), p@),
    {
        let poly = Poly::lagrange(set);
        if poly.coeffs().len() > self.pow_tau_g1.len() {
            let invs = Self::difference_inverses(set);
            proof {
                poly.lemma_wf_canonical();
                assert(interpolates(poly@, set@));
                let xs = xs_of(set@);
                let inv = |j: int, t: int| invs@[t]@[j].val();
                assert forall|t: int, j: int| 0 <= j < t < set@.len() implies ((xs[j] - xs[t]) * #[trigger] inv(j, t)) % field_modulus() == 1 by {
                    assert(xs[j] == set@[j].0.val() && xs[t] == set@[t].0.val());
                    assert(inverts_row(set@, invs@[t]@, t));
                }
                assert forall|i: Seq<int>| #[trigger] interpolates(i, set@) implies i.len() > self.size() by {
                    lemma_interpolant_unique(set@, i, poly@, inv);
                }
            }
            return Err(KzgError::DegreeTooLarge);
        }
        proof {
            poly.lemma_wf_canonical();
        }
        let commitment = self.eval_at_tau_g1(&poly);
        Ok((poly, commitment))
    }

    /// For each pair `j < t` of points, the inverse of `x_j - x_t`. Their existence is what
    /// makes the division of a polynomial through the points by the vanishing polynomial exact.
    fn difference_inverses(points: &Vec<(Fr, Fr)>) -> (r: Vec<Vec<Fr>>)
        requires
            distinct_points(points@),
        ensures
            r@.len() == points@.len(),
            forall|t: int| 0 <= t < points@.len() ==> #[trigger] inverts_row(points@, r@[t]@, t),
    {
        let mut r: Vec<Vec<Fr>> = Vec::new();
        let mut t: usize = 0;
        while t < points.len()
            invariant
                distinct_points(points@),
                t <= points@.len(),
                r@.len() == t,
                forall|tt: int| 0 <= tt < t ==> #[trigger] inverts_row(points@, r@[tt]@, tt),
            decreases points@.len() - t,
        {
            let mut row: Vec<Fr> = Vec::new();
            let mut j: usize = 0;
            assert(points@[t as int].0.wf());
            while j < t
                invariant
                    distinct_points(points@),
                    t < points@.len(),
                    j <= t,
                    row@.len() == j,
                    forall|jj: int| 0 <= jj < j ==> ((points@[jj].0.val() - points@[t as int].0.val()) * #[trigger] row@[jj].val()) % field_modulus() == 1,
                decreases t - j,
            {
                assert(points@[j as int].0.wf());
                let d = points[j].0.sub(&points[t].0);
                proof {
                    lemma_diff_nonzero(points@[j as int].0.val(), points@[t as int].0.val());
                }
                let inv = d.invert().unwrap();
                proof {
                    let a = points@[j as int].0.val() - points@[t as int].0.val();
                    lemma_mod_idem(a);
                    lemma_mul_cong(a, inv.val(), d.val(), inv.val());
                }
                row.push(inv);
                j = j + 1;
            }
            assert(inverts_row(points@, row@, t as int));
            let ghost prev = r@;
            r.push(row);
            proof {
                assert forall|tt: int| 0 <= tt < t + 1 implies #[trigger] inverts_row(points@, r@[tt]@, tt) by {
                    if tt < t {
                        assert(r@[tt] == prev[tt]);
                    }
                }
            }
            t = t + 1;
        }
        r
    }

    /// A proof that `poly` takes the value `y` at `x` for each of the points: the quotient
    /// of `poly` minus the interpolant of the points by their vanishing polynomial,
    /// evaluated at the secret in G1.
    pub fn prove(&self, poly: &Poly, points: &Vec<(Fr, Fr)>) -> (r: Result<Proof, KzgError>)
        requires
            self.wf(),
            poly.wf(),
            distinct_points(points@),
            points@.len() + 3 <= usize::MAX,
        ensures
            (r == Err::<Proof, KzgError>(KzgError::DegreeTooLarge)) <==> poly@.len() > self.size(),
            (r == Err::<Proof, KzgError>(KzgError::NotOnPolynomial)) <==> (poly@.len() <= self.size() && !on_polynomial(poly@, points@)),
            r is Ok <==> (poly@.len() <= self.size() && on_polynomial(poly@, points@)),
            r matches Ok(p) ==> p.wf() && exists|q: Seq<int>, i: Seq<int>, z: Seq<int>|
                #[trigger] is_quotient(poly@, points@, q, i, z) && p.enc() == g1_combination(g1_encs(self.pow_tau_g1@), q),
    {
        if poly.coeffs().len() > self.pow_tau_g1.len() {
            return Err(KzgError::DegreeTooLarge);
        }
        let mut t: usize = 0;
        while t < points.len()
            invariant
                distinct_points(points@),
                poly.wf(),
                self.wf(),
                poly@.len() <= self.size(),
                t <= points@.len(),
                forall|s: int| 0 <= s < t ==> #[trigger] eval(poly@, points@[s].0.val()) == points@[s].1.val(),
            decreases points@.len() - t,
        {
            assert(points@[t as int].0.wf() && points@[t as int].1.wf());
            if !poly.evaluate(&points[t].0).equals(&points[t].1) {
                assert(eval(poly@, points@[t as int].0.val()) != points@[t as int].1.val());
                return Err(KzgError::NotOnPolynomial);
            }
            t = t + 1;
        }
        let invs = Self::difference_inverses(points);
        let i = Poly::lagrange(points);
        let z = Self::z_poly_of(points);
        let diff = poly.sub(&i);
        let (q, rem) = diff.div(&z);
        let proof = self.eval_at_tau_g1(&q);
        proof {
            let m = field_modulus();
            i.lemma_wf_canonical();
            z.lemma_wf_canonical();
            q.lemma_wf_canonical();
            rem.lemma_wf_canonical();
            let xs = xs_of(points@);
            assert forall|t: int| 0 <= t < xs.len() implies #[trigger] eval(rem@, xs[t]) == 0 by {
                let x = points@[t].0.val();
                assert(xs[t] == x);
                lemma_vanishing_roots(points@, t);
                assert(eval(z@, x) == 0);
                assert(eval(q@, x) * 0 == 0);
                assert(points@[t].1.wf());
                lemma_small_mod(0, m as nat);
                assert(eval(diff@, x) == (eval(poly@, x) - eval(i@, x)) % m);
                assert(eval(diff@, x) == 0);
                lemma_eval_range(rem@, x);
                lemma_small_mod(eval(rem@, x) as nat, m as nat);
            }
            let inv = |j: int, t: int| invs@[t]@[j].val();
            assert forall|t: int, j: int| 0 <= j < t < xs.len() implies ((xs[j] - xs[t]) * #[trigger] inv(j, t)) % m == 1 by {
                assert(xs[j] == points@[j].0.val() && xs[t] == points@[t].0.val());
                assert(inverts_row(points@, invs@[t]@, t));
                assert(inv(j, t) == invs@[t]@[j].val());
            }
            lemma_vanishing_everywhere_zero(rem@, xs, inv);
            if rem@.len() > 0 {
                let top = rem@.len() - 1;
                assert(coeff(rem@, top) % m == 0);
                lemma_small_mod(coeff(rem@, top) as nat, m as nat);
            }
            assert forall|k: int| 0 <= k implies (coeff(poly@, k) - coeff(i@, k)) % m == #[trigger] product_coeff(q@, z@, k) % m by {
                assert(coeff(diff@, k) == (coeff(poly@, k) - coeff(i@, k)) % m);
                assert(coeff(diff@, k) == (product_coeff(q@, z@, k) + coeff(rem@, k)) % m);
                assert(coeff(rem@, k) == 0);
            }
            assert(interpolates(i@, points@));
            assert(vanishes(z@, points@));
            assert(is_quotient(poly@, points@, q@, i@, z@));
        }
        Ok(proof)
    }

    /// Checks `e(proof, [Z(tau)]_2) == e(commitment - [I(tau)]_1, g2)`, where `I` interpolates
    /// the points and `Z` vanishes on them. A false result is a rejected proof.
    pub fn verify(&self, commitment: &Commitment, points: &Vec<(Fr, Fr)>, proof: &Proof) -> (r: bool)
        requires
            self.wf(),
            commitment.wf(),
            proof.wf(),
            distinct_points(points@),
            points@.len() < self.size(),
            points@.len() + 3 <= usize::MAX,
        ensures
            exists|i: Seq<int>, z: Seq<int>|
                interpolates(i, points@) && vanishes(z, points@) && r == #[trigger] self.pairing_check(commitment.enc(), proof.enc(), i, z),
    {
        let i = Poly::lagrange(points);
        let z = Self::z_poly_of(points);
        let z_tau = self.eval_at_tau_g2(&z);
        let i_tau = self.eval_at_tau_g1(&i);
        let lhs = g1_diff(commitment, &i_tau);
        let g2 = g2_gen_scale(&Fr::one());
        let r = pairings_agree(proof, &z_tau, &lhs, &g2);
        proof {
            i.lemma_wf_canonical();
            z.lemma_wf_canonical();
            assert(interpolates(i@, points@) && vanishes(z@, points@));
            assert(r == self.pairing_check(commitment.enc(), proof.enc(), i@, z@));
        }
        r
    }
}

} // verus!
