//! The base field of the BLS12-381 curve: integers modulo a 381-bit prime.
//!
//! A [`FieldElement`] holds the canonical representative of a residue as six
//! 64-bit limbs, least significant first. Contracts speak of the residue as a
//! natural number below [`modulus`]. The arithmetic itself is done by the
//! `ark-ff` implementation of the field; the functions that call it are
//! trusted, and say so.

use ark_ff::{Field, PrimeField};
use vstd::arithmetic::div_mod::{
    lemma_fundamental_div_mod_converse, lemma_mul_mod_noop_general, lemma_small_mod,
};
use vstd::arithmetic::mul::{lemma_mul_is_associative, lemma_mul_is_commutative};
use vstd::prelude::*;

verus! {

/// The order of the field.
pub open spec fn modulus() -> nat {
    0x1a0111ea397fe69a4b1ba7b6434bacd764774b84f38512bf6730d2a0f6b0f6241eabfffeb153ffffb9feffffffffaaabnat
}

/// The sum of two residues.
#[verifier::opaque]
pub open spec fn field_add(a: nat, b: nat) -> nat {
    (a + b) % modulus()
}

/// The difference of two residues.
#[verifier::opaque]
pub open spec fn field_sub(a: nat, b: nat) -> nat {
    ((a - b) % (modulus() as int)) as nat
}

/// The product of two residues.
#[verifier::opaque]
pub open spec fn field_mul(a: nat, b: nat) -> nat {
    (a * b) % modulus()
}

/// The residue whose product with `a` is one, where there is one.
pub open spec fn field_inv(a: nat) -> nat {
    choose|x: nat| x < modulus() && field_mul(x, a) == 1
}

/// `a` has an inverse.
pub open spec fn invertible(a: nat) -> bool {
    field_inv(a) < modulus() && field_mul(field_inv(a), a) == 1
}

/// The number that six limbs spell, least significant limb first.
pub open spec fn limbs_value(limbs: Seq<u64>) -> nat {
    (limbs[0] + limbs[1] * 0x1_0000_0000_0000_0000 + limbs[2]
        * 0x1_0000_0000_0000_0000_0000_0000_0000_0000 + limbs[3]
        * 0x1_0000_0000_0000_0000_0000_0000_0000_0000_0000_0000_0000_0000 + limbs[4]
        * 0x1_0000_0000_0000_0000_0000_0000_0000_0000_0000_0000_0000_0000_0000_0000_0000_0000
        + limbs[5]
        * 0x1_0000_0000_0000_0000_0000_0000_0000_0000_0000_0000_0000_0000_0000_0000_0000_0000_0000_0000_0000_0000) as nat
}

/// An element of the field.
#[derive(Clone, Copy, Debug, PartialEq, Eq)]
pub struct FieldElement {
    /// The canonical representative, least significant limb first.
    pub limbs: [u64; 6],
}

impl View for FieldElement {
    type V = nat;

    open spec fn view(&self) -> nat {
        limbs_value(self.limbs@)
    }
}

impl FieldElement {
    /// The limbs hold a number below the modulus.
    pub open spec fn wf(&self) -> bool {
        self@ < modulus()
    }

    /// The additive identity.
    pub fn zero() -> (r: Self)
        ensures
            r.wf(),
            r@ == 0,
    {
        FieldElement { limbs: [0, 0, 0, 0, 0, 0] }
    }

    /// The multiplicative identity.
    pub fn one() -> (r: Self)
        ensures
            r.wf(),
            r@ == 1,
    {
        FieldElement { limbs: [1, 0, 0, 0, 0, 0] }
    }

    /// Whether the element is the additive identity.
    pub fn is_zero(&self) -> (b: bool)
        ensures
            b == (self@ == 0),
    {
        self.limbs[0] == 0 && self.limbs[1] == 0 && self.limbs[2] == 0 && self.limbs[3] == 0
            && self.limbs[4] == 0 && self.limbs[5] == 0
    }

    /// Whether the element is the multiplicative identity.
    pub fn is_one(&self) -> (b: bool)
        ensures
            b == (self@ == 1),
    {
        self.limbs[0] == 1 && self.limbs[1] == 0 && self.limbs[2] == 0 && self.limbs[3] == 0
            && self.limbs[4] == 0 && self.limbs[5] == 0
    }
}

/// Addition in the field, by `Add` of `ark_bls12_381::Fq`: the canonical
/// representative of the sum of the two residues.
#[verifier::external_body]
pub(crate) fn fq_add(a: &FieldElement, b: &FieldElement) -> (r: FieldElement)
    requires
        a.wf(),
        b.wf(),
    ensures
        r.wf(),
        r@ == field_add(a@, b@),
{
    let x = ark_bls12_381::Fq::from_repr(ark_ff::BigInteger384(a.limbs)).unwrap();
    let y = ark_bls12_381::Fq::from_repr(ark_ff::BigInteger384(b.limbs)).unwrap();
    FieldElement { limbs: (x + y).into_repr().0 }
}

/// Subtraction in the field, by `Sub` of `ark_bls12_381::Fq`: the canonical
/// representative of the difference of the two residues.
#[verifier::external_body]
pub(crate) fn fq_sub(a: &FieldElement, b: &FieldElement) -> (r: FieldElement)
    requires
        a.wf(),
        b.wf(),
    ensures
        r.wf(),
        r@ == field_sub(a@, b@),
{
    let x = ark_bls12_381::Fq::from_repr(ark_ff::BigInteger384(a.limbs)).unwrap();
    let y = ark_bls12_381::Fq::from_repr(ark_ff::BigInteger384(b.limbs)).unwrap();
    FieldElement { limbs: (x - y).into_repr().0 }
}

/// Multiplication in the field, by `Mul` of `ark_bls12_381::Fq`: the
/// canonical representative of the product of the two residues. The modulus
/// is prime, so the product of two nonzero residues is nonzero; the contract
/// states this as well, and it is not proved here.
#[verifier::external_body]
pub(crate) fn fq_mul(a: &FieldElement, b: &FieldElement) -> (r: FieldElement)
    requires
        a.wf(),
        b.wf(),
    ensures
        r.wf(),
        r@ == field_mul(a@, b@),
        a@ != 0 && b@ != 0 ==> r@ != 0,
{
    let x = ark_bls12_381::Fq::from_repr(ark_ff::BigInteger384(a.limbs)).unwrap();
    let y = ark_bls12_381::Fq::from_repr(ark_ff::BigInteger384(b.limbs)).unwrap();
    FieldElement { limbs: (x * y).into_repr().0 }
}

/// Squaring in the field, by `Field::square` of `ark_bls12_381::Fq`: the
/// product of the residue with itself.
#[verifier::external_body]
pub(crate) fn fq_square(a: &FieldElement) -> (r: FieldElement)
    requires
        a.wf(),
    ensures
        r.wf(),
        r@ == field_mul(a@, a@),
{
    let x = ark_bls12_381::Fq::from_repr(ark_ff::BigInteger384(a.limbs)).unwrap();
    FieldElement { limbs: x.square().into_repr().0 }
}

/// Doubling in the field, by `Field::double` of `ark_bls12_381::Fq`: the sum
/// of the residue with itself.
#[verifier::external_body]
pub(crate) fn fq_double(a: &FieldElement) -> (r: FieldElement)
    requires
        a.wf(),
    ensures
        r.wf(),
        r@ == field_add(a@, a@),
{
    let x = ark_bls12_381::Fq::from_repr(ark_ff::BigInteger384(a.limbs)).unwrap();
    FieldElement { limbs: x.double().into_repr().0 }
}

/// Inversion in the field, by `Field::inverse` of `ark_bls12_381::Fq`: `None`
/// for zero, and for any other residue the residue whose product with it is
/// one.
#[verifier::external_body]
pub(crate) fn fq_inverse(a: &FieldElement) -> (r: Option<FieldElement>)
    requires
        a.wf(),
    ensures
        a@ == 0 ==> r is None,
        a@ != 0 ==> r is Some && r->0.wf() && field_mul(r->0@, a@) == 1,
{
    let x = ark_bls12_381::Fq::from_repr(ark_ff::BigInteger384(a.limbs)).unwrap();
    match x.inverse() {
        Some(v) => Some(FieldElement { limbs: v.into_repr().0 }),
        None => None,
    }
}

/// A number written as a limb and a multiple of `2^64` is written so in one
/// way only.
proof fn lemma_split_limb(a0: u64, a_rest: int, b0: u64, b_rest: int)
    requires
        a0 + 0x1_0000_0000_0000_0000 * a_rest == b0 + 0x1_0000_0000_0000_0000 * b_rest,
    ensures
        a0 == b0,
        a_rest == b_rest,
{
    let base = 0x1_0000_0000_0000_0000int;
    lemma_fundamental_div_mod_converse(a0 + base * a_rest, base, a_rest, a0 as int);
    lemma_fundamental_div_mod_converse(b0 + base * b_rest, base, b_rest, b0 as int);
}

/// Six limbs are determined by the number they spell.
pub proof fn lemma_limbs_unique(a: Seq<u64>, b: Seq<u64>)
    requires
        a.len() == 6,
        b.len() == 6,
        limbs_value(a) == limbs_value(b),
    ensures
        a == b,
{
    let base = 0x1_0000_0000_0000_0000int;
    let a4 = a[4] + base * a[5];
    let a3 = a[3] + base * a4;
    let a2 = a[2] + base * a3;
    let a1 = a[1] + base * a2;
    let b4 = b[4] + base * b[5];
    let b3 = b[3] + base * b4;
    let b2 = b[2] + base * b3;
    let b1 = b[1] + base * b2;
    assert(limbs_value(a) == a[0] + base * a1);
    assert(limbs_value(b) == b[0] + base * b1);
    lemma_split_limb(a[0], a1, b[0], b1);
    lemma_split_limb(a[1], a2, b[1], b2);
    lemma_split_limb(a[2], a3, b[2], b3);
    lemma_split_limb(a[3], a4, b[3], b4);
    lemma_split_limb(a[4], a[5] as int, b[4], b[5] as int);
    assert(a =~= b);
}

/// An element is determined by its residue: elements with equal views are
/// equal.
pub proof fn lemma_view_injective(a: FieldElement, b: FieldElement)
    requires
        a@ == b@,
    ensures
        a == b,
{
    lemma_limbs_unique(a.limbs@, b.limbs@);
    assert(a.limbs =~= b.limbs);
}

/// Products are residues.
pub proof fn lemma_field_mul_bound(a: nat, b: nat)
    ensures
        field_mul(a, b) < modulus(),
{
    reveal(field_mul);
}

/// Multiplication of residues is commutative.
pub proof fn lemma_field_mul_commutative(a: nat, b: nat)
    ensures
        field_mul(a, b) == field_mul(b, a),
{
    reveal(field_mul);
    lemma_mul_is_commutative(a as int, b as int);
}

/// Multiplication of residues is associative.
pub proof fn lemma_field_mul_associative(a: nat, b: nat, c: nat)
    ensures
        field_mul(field_mul(a, b), c) == field_mul(a, field_mul(b, c)),
{
    reveal(field_mul);
    let m = modulus() as int;
    lemma_mul_mod_noop_general((a * b) as int, c as int, m);
    lemma_mul_mod_noop_general(a as int, (b * c) as int, m);
    lemma_mul_is_associative(a as int, b as int, c as int);
}

/// One is neutral for the multiplication of residues.
pub proof fn lemma_field_mul_one(a: nat)
    requires
        a < modulus(),
    ensures
        field_mul(a, 1) == a,
        field_mul(1, a) == a,
{
    reveal(field_mul);
    lemma_small_mod(a, modulus());
    assert(a * 1 == a);
    assert(1 * a == a);
}

/// A residue has at most one inverse.
pub proof fn lemma_field_inverse_unique(a: nat, x: nat, y: nat)
    requires
        x < modulus(),
        y < modulus(),
        field_mul(x, a) == 1,
        field_mul(y, a) == 1,
    ensures
        x == y,
{
    lemma_field_mul_one(x);
    lemma_field_mul_one(y);
    lemma_field_mul_commutative(y, a);
    lemma_field_mul_associative(x, a, y);
}

/// A residue whose product with `a` is one is the inverse of `a`.
pub proof fn lemma_field_inv_is(a: nat, w: nat)
    requires
        w < modulus(),
        field_mul(w, a) == 1,
    ensures
        field_inv(a) == w,
{
    lemma_field_inverse_unique(a, field_inv(a), w);
}

/// Two residues differ exactly when their difference is not zero.
pub proof fn lemma_field_sub_zero(a: nat, b: nat)
    requires
        a < modulus(),
        b < modulus(),
    ensures
        field_sub(a, b) == 0 <==> a == b,
{
    reveal(field_sub);
}

/// The modulus is odd: only zero doubles to zero.
pub proof fn lemma_field_double_zero(a: nat)
    requires
        a < modulus(),
    ensures
        field_add(a, a) == 0 <==> a == 0,
{
    reveal(field_add);
}

} // verus!
