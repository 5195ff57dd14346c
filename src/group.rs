//! Points of the BLS12-381 groups G1 and G2, held as their compressed encodings, and the
//! pairing check.
use crate::field::Fr;
use bls12_381::{pairing, G1Affine, G1Projective, G2Affine, G2Projective, Scalar};
use vstd::prelude::*;

verus! {

/// Whether the bytes are the compressed encoding of a point of G1.
pub uninterp spec fn g1_valid_of(b: Seq<u8>) -> bool;

/// Whether the bytes are the compressed encoding of a point of G2.
pub uninterp spec fn g2_valid_of(b: Seq<u8>) -> bool;

/// The encoding of the G1 generator times the scalar `s`.
pub uninterp spec fn g1_gen_scale_of(s: int) -> Seq<u8>;

/// The encoding of the G2 generator times the scalar `s`.
pub uninterp spec fn g2_gen_scale_of(s: int) -> Seq<u8>;

/// The encoding of the G1 point `p` times the scalar `s`.
pub uninterp spec fn g1_scale_of(p: Seq<u8>, s: int) -> Seq<u8>;

/// The encoding of the G2 point `p` times the scalar `s`.
pub uninterp spec fn g2_scale_of(p: Seq<u8>, s: int) -> Seq<u8>;

/// The encoding of the sum of two G1 points.
pub uninterp spec fn g1_sum_of(a: Seq<u8>, b: Seq<u8>) -> Seq<u8>;

/// The encoding of the sum of two G2 points.
pub uninterp spec fn g2_sum_of(a: Seq<u8>, b: Seq<u8>) -> Seq<u8>;

/// The encoding of the difference of two G1 points.
pub uninterp spec fn g1_diff_of(a: Seq<u8>, b: Seq<u8>) -> Seq<u8>;

/// Whether `e(a, b) == e(c, d)` for G1 points `a`, `c` and G2 points `b`, `d`.
pub uninterp spec fn pairings_agree_of(a: Seq<u8>, b: Seq<u8>, c: Seq<u8>, d: Seq<u8>) -> bool;

/// A point of G1, as its 48-byte compressed encoding.
#[derive(Clone, Copy, Debug)]
pub struct G1 {
    pub(crate) bytes: [u8; 48],
}

/// A point of G2, as its 96-byte compressed encoding.
#[derive(Clone, Copy, Debug)]
pub struct G2 {
    pub(crate) bytes: [u8; 96],
}

impl G1 {
    pub closed spec fn enc(&self) -> Seq<u8> {
        self.bytes@
    }

    pub open spec fn wf(&self) -> bool {
        g1_valid_of(self.enc())
    }

    /// The compressed encoding.
    pub fn to_bytes(&self) -> (r: [u8; 48])
        ensures
            r@ == self.enc(),
    {
        self.bytes
    }

    /// Whether the two points are equal; a point has exactly one compressed encoding.
    pub fn equals(&self, o: &G1) -> (r: bool)
        ensures
            r == (self.enc() == o.enc()),
    {
        let mut i: usize = 0;
        while i < 48
            invariant
                i <= 48,
                forall|j: int| 0 <= j < i ==> self.bytes@[j] == o.bytes@[j],
            decreases 48 - i,
        {
            if self.bytes[i] != o.bytes[i] {
                return false;
            }
            i = i + 1;
        }
        assert(self.bytes@ =~= o.bytes@);
        true
    }
}

impl G2 {
    pub closed spec fn enc(&self) -> Seq<u8> {
        self.bytes@
    }

    pub open spec fn wf(&self) -> bool {
        g2_valid_of(self.enc())
    }

    /// The compressed encoding.
    pub fn to_bytes(&self) -> (r: [u8; 96])
        ensures
            r@ == self.enc(),
    {
        self.bytes
    }
}

/// `sum srs[i] * c[i]` over the coefficients, starting from the identity (the generator times zero).
pub open spec fn g1_combination(srs: Seq<Seq<u8>>, c: Seq<int>) -> Seq<u8>
    decreases c.len(),
{
    if c.len() == 0 {
        g1_gen_scale_of(0)
    } else {
        g1_sum_of(g1_combination(srs, c.drop_last()), g1_scale_of(srs[c.len() - 1], c.last()))
    }
}

/// `sum srs[i] * c[i]` over the coefficients, starting from the identity (the generator times zero).
pub open spec fn g2_combination(srs: Seq<Seq<u8>>, c: Seq<int>) -> Seq<u8>
    decreases c.len(),
{
    if c.len() == 0 {
        g2_gen_scale_of(0)
    } else {
        g2_sum_of(g2_combination(srs, c.drop_last()), g2_scale_of(srs[c.len() - 1], c.last()))
    }
}

/// Relies on `Mul<Scalar> for G1Affine` with `G1Affine::generator`: the generator times `s`.
#[verifier::external_body]
pub(crate) fn g1_gen_scale(s: &Fr) -> (r: G1)
    requires
        s.wf(),
    ensures
        r.enc() == g1_gen_scale_of(s.val()),
        g1_valid_of(r.enc()),
{
    let p = G1Affine::generator() * Scalar::from_bytes(&s.bytes).unwrap();
    G1 { bytes: G1Affine::from(p).to_compressed() }
}

/// Relies on `Mul<Scalar> for G2Affine` with `G2Affine::generator`: the generator times `s`.
#[verifier::external_body]
pub(crate) fn g2_gen_scale(s: &Fr) -> (r: G2)
    requires
        s.wf(),
    ensures
        r.enc() == g2_gen_scale_of(s.val()),
        g2_valid_of(r.enc()),
{
    let p = G2Affine::generator() * Scalar::from_bytes(&s.bytes).unwrap();
    G2 { bytes: G2Affine::from(p).to_compressed() }
}

/// Relies on `Mul<Scalar> for G1Affine`: `p` times `s`.
#[verifier::external_body]
pub(crate) fn g1_scale(p: &G1, s: &Fr) -> (r: G1)
    requires
        p.wf(),
        s.wf(),
    ensures
        r.enc() == g1_scale_of(p.enc(), s.val()),
        g1_valid_of(r.enc()),
{
    let a = G1Affine::from_compressed(&p.bytes).unwrap();
    let q = a * Scalar::from_bytes(&s.bytes).unwrap();
    G1 { bytes: G1Affine::from(q).to_compressed() }
}

/// Relies on `Mul<Scalar> for G2Affine`: `p` times `s`.
#[verifier::external_body]
pub(crate) fn g2_scale(p: &G2, s: &Fr) -> (r: G2)
    requires
        p.wf(),
        s.wf(),
    ensures
        r.enc() == g2_scale_of(p.enc(), s.val()),
        g2_valid_of(r.enc()),
{
    let a = G2Affine::from_compressed(&p.bytes).unwrap();
    let q = a * Scalar::from_bytes(&s.bytes).unwrap();
    G2 { bytes: G2Affine::from(q).to_compressed() }
}

/// Relies on `Add<G1Affine> for G1Projective`: `a + b`.
#[verifier::external_body]
pub(crate) fn g1_sum(a: &G1, b: &G1) -> (r: G1)
    requires
        a.wf(),
        b.wf(),
    ensures
        r.enc() == g1_sum_of(a.enc(), b.enc()),
        g1_valid_of(r.enc()),
{
    let x = G1Projective::from(G1Affine::from_compressed(&a.bytes).unwrap());
    let y = G1Affine::from_compressed(&b.bytes).unwrap();
    G1 { bytes: G1Affine::from(x + y).to_compressed() }
}

/// Relies on `Add<G2Affine> for G2Projective`: `a + b`.
#[verifier::external_body]
pub(crate) fn g2_sum(a: &G2, b: &G2) -> (r: G2)
    requires
        a.wf(),
        b.wf(),
    ensures
        r.enc() == g2_sum_of(a.enc(), b.enc()),
        g2_valid_of(r.enc()),
{
    let x = G2Projective::from(G2Affine::from_compressed(&a.bytes).unwrap());
    let y = G2Affine::from_compressed(&b.bytes).unwrap();
    G2 { bytes: G2Affine::from(x + y).to_compressed() }
}

/// Relies on `Sub<G1Affine> for G1Projective`: `a - b`.
#[verifier::external_body]
pub(crate) fn g1_diff(a: &G1, b: &G1) -> (r: G1)
    requires
        a.wf(),
        b.wf(),
    ensures
        r.enc() == g1_diff_of(a.enc(), b.enc()),
        g1_valid_of(r.enc()),
{
    let x = G1Projective::from(G1Affine::from_compressed(&a.bytes).unwrap());
    let y = G1Affine::from_compressed(&b.bytes).unwrap();
    G1 { bytes: G1Affine::from(x - y).to_compressed() }
}

/// Relies on `bls12_381::pairing` and `PartialEq for Gt`: whether `e(a, b) == e(c, d)`.
#[verifier::external_body]
pub(crate) fn pairings_agree(a: &G1, b: &G2, c: &G1, d: &G2) -> (r: bool)
    requires
        a.wf(),
        b.wf(),
        c.wf(),
        d.wf(),
    ensures
        r == pairings_agree_of(a.enc(), b.enc(), c.enc(), d.enc()),
{
    let (a, c) = (G1Affine::from_compressed(&a.bytes).unwrap(), G1Affine::from_compressed(&c.bytes).unwrap());
    let (b, d) = (G2Affine::from_compressed(&b.bytes).unwrap(), G2Affine::from_compressed(&d.bytes).unwrap());
    pairing(&a, &b) == pairing(&c, &d)
}

} // verus!
