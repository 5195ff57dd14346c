//! Elements of the BLS12-381 scalar field, held as canonical little-endian bytes.
use bls12_381::Scalar;
use vstd::prelude::*;

verus! {

/// The prime order of the BLS12-381 scalar field.
pub open spec fn field_modulus() -> int {
    0x73eda753299d7d483339d80809a1d80553bda402fffe5bfeffffffff00000001int
}

/// The integer that a little-endian byte sequence denotes.
pub open spec fn le_value(s: Seq<u8>) -> int
    decreases s.len(),
{
    if s.len() == 0 {
        0
    } else {
        s[0] + 256 * le_value(s.drop_first())
    }
}

/// The integer that four little-endian 64-bit limbs denote.
pub open spec fn limbs_value(l: Seq<u64>) -> int {
    l[0] + l[1] * 0x1_0000_0000_0000_0000int + l[2] * 0x1_0000_0000_0000_0000_0000_0000_0000_0000int
        + l[3] * 0x1_0000_0000_0000_0000_0000_0000_0000_0000_0000_0000_0000_0000int
}

/// A scalar field element in canonical form: its bytes denote an integer below the modulus.
/// Arithmetic goes through `bls12_381::Scalar`, whose `from_bytes` and `to_bytes` read and
/// write this canonical little-endian encoding.
#[derive(Clone, Copy, Debug)]
pub struct Fr {
    pub(crate) bytes: [u8; 32],
}

impl Fr {
    /// The integer in `0..field_modulus()` that this element stands for.
    pub closed spec fn val(self) -> int {
        le_value(self.bytes@)
    }

    pub open spec fn wf(self) -> bool {
        0 <= self.val() < field_modulus()
    }

    /// The additive identity.
    pub fn zero() -> (r: Fr)
        ensures
            r.wf(),
            r.val() == 0,
    {
        scalar_zero()
    }

    /// The multiplicative identity.
    pub fn one() -> (r: Fr)
        ensures
            r.wf(),
            r.val() == 1,
    {
        scalar_one()
    }

    /// The element whose value is `v`.
    pub fn from_u64(v: u64) -> (r: Fr)
        ensures
            r.wf(),
            r.val() == v as int,
    {
        scalar_from_u64(v)
    }

    /// The 256-bit little-endian integer `limbs`, reduced by the modulus.
    pub fn from_raw(limbs: [u64; 4]) -> (r: Fr)
        ensures
            r.wf(),
            r.val() == limbs_value(limbs@) % field_modulus(),
    {
        scalar_from_raw(limbs)
    }

    /// The sum modulo the field order.
    pub fn add(&self, o: &Fr) -> (r: Fr)
        requires
            self.wf(),
            o.wf(),
        ensures
            r.wf(),
            r.val() == (self.val() + o.val()) % field_modulus(),
    {
        scalar_add(self, o)
    }

    /// The difference modulo the field order.
    pub fn sub(&self, o: &Fr) -> (r: Fr)
        requires
            self.wf(),
            o.wf(),
        ensures
            r.wf(),
            r.val() == (self.val() - o.val()) % field_modulus(),
    {
        scalar_sub(self, o)
    }

    /// The product modulo the field order.
    pub fn mul(&self, o: &Fr) -> (r: Fr)
        requires
            self.wf(),
            o.wf(),
        ensures
            r.wf(),
            r.val() == (self.val() * o.val()) % field_modulus(),
    {
        scalar_mul(self, o)
    }

    /// The additive inverse modulo the field order.
    pub fn neg(&self) -> (r: Fr)
        requires
            self.wf(),
        ensures
            r.wf(),
            r.val() == (-self.val()) % field_modulus(),
    {
        scalar_neg(self)
    }

    /// The multiplicative inverse, or `None` for zero, which has none.
    pub fn invert(&self) -> (r: Option<Fr>)
        requires
            self.wf(),
        ensures
            r is None <==> self.val() == 0,
            r matches Some(i) ==> i.wf() && (self.val() * i.val()) % field_modulus() == 1,
    {
        if self.is_zero() {
            None
        } else {
            Some(scalar_invert(self))
        }
    }

    /// Whether the two elements are equal.
    pub fn equals(&self, o: &Fr) -> (r: bool)
        requires
            self.wf(),
            o.wf(),
        ensures
            r == (self.val() == o.val()),
    {
        scalar_equals(self, o)
    }

    /// Whether this element is the additive identity.
    pub fn is_zero(&self) -> (r: bool)
        requires
            self.wf(),
        ensures
            r == (self.val() == 0),
    {
        scalar_equals(self, &scalar_zero())
    }
}

/// Relies on `Scalar::zero`: the additive identity.
#[verifier::external_body]
fn scalar_zero() -> (r: Fr)
    ensures
        r.wf(),
        r.val() == 0,
{
    Fr { bytes: Scalar::zero().to_bytes() }
}

/// Relies on `Scalar::one`: the multiplicative identity.
#[verifier::external_body]
fn scalar_one() -> (r: Fr)
    ensures
        r.wf(),
        r.val() == 1,
{
    Fr { bytes: Scalar::one().to_bytes() }
}

/// Relies on `From<u64> for Scalar`: the element whose value is `v`.
#[verifier::external_body]
fn scalar_from_u64(v: u64) -> (r: Fr)
    ensures
        r.wf(),
        r.val() == v as int,
{
    Fr { bytes: Scalar::from(v).to_bytes() }
}

/// Relies on `Scalar::from_raw`: the 256-bit little-endian integer reduced by the modulus.
#[verifier::external_body]
fn scalar_from_raw(limbs: [u64; 4]) -> (r: Fr)
    ensures
        r.wf(),
        r.val() == limbs_value(limbs@) % field_modulus(),
{
    Fr { bytes: Scalar::from_raw(limbs).to_bytes() }
}

/// Relies on `Scalar::add`: the sum modulo the field order.
#[verifier::external_body]
fn scalar_add(a: &Fr, o: &Fr) -> (r: Fr)
    requires
        a.wf(),
        o.wf(),
    ensures
        r.wf(),
        r.val() == (a.val() + o.val()) % field_modulus(),
{
    let a = Scalar::from_bytes(&a.bytes).unwrap();
    let b = Scalar::from_bytes(&o.bytes).unwrap();
    Fr { bytes: (a + b).to_bytes() }
}

/// Relies on `Scalar::sub`: the difference modulo the field order.
#[verifier::external_body]
fn scalar_sub(a: &Fr, o: &Fr) -> (r: Fr)
    requires
        a.wf(),
        o.wf(),
    ensures
        r.wf(),
        r.val() == (a.val() - o.val()) % field_modulus(),
{
    let a = Scalar::from_bytes(&a.bytes).unwrap();
    let b = Scalar::from_bytes(&o.bytes).unwrap();
    Fr { bytes: (a - b).to_bytes() }
}

/// Relies on `Scalar::mul`: the product modulo the field order.
#[verifier::external_body]
fn scalar_mul(a: &Fr, o: &Fr) -> (r: Fr)
    requires
        a.wf(),
        o.wf(),
    ensures
        r.wf(),
        r.val() == (a.val() * o.val()) % field_modulus(),
{
    let a = Scalar::from_bytes(&a.bytes).unwrap();
    let b = Scalar::from_bytes(&o.bytes).unwrap();
    Fr { bytes: (a * b).to_bytes() }
}

/// Relies on `Scalar::neg`: the additive inverse modulo the field order.
#[verifier::external_body]
fn scalar_neg(a: &Fr) -> (r: Fr)
    requires
        a.wf(),
    ensures
        r.wf(),
        r.val() == (-a.val()) % field_modulus(),
{
    Fr { bytes: (-Scalar::from_bytes(&a.bytes).unwrap()).to_bytes() }
}

/// Relies on `Scalar::invert`: for a non-zero element, its multiplicative inverse.
#[verifier::external_body]
fn scalar_invert(a: &Fr) -> (r: Fr)
    requires
        a.wf(),
        a.val() != 0,
    ensures
        r.wf(),
        (a.val() * r.val()) % field_modulus() == 1,
{
    Fr { bytes: Scalar::from_bytes(&a.bytes).unwrap().invert().unwrap().to_bytes() }
}

/// Relies on `PartialEq for Scalar`: equality of field elements.
#[verifier::external_body]
fn scalar_equals(a: &Fr, o: &Fr) -> (r: bool)
    requires
        a.wf(),
        o.wf(),
    ensures
        r == (a.val() == o.val()),
{
    Scalar::from_bytes(&a.bytes).unwrap() == Scalar::from_bytes(&o.bytes).unwrap()
}

} // verus!
