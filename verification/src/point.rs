//! Points of a short Weierstrass curve in affine coordinates, and the
//! chord-and-tangent rule that adds them.

use crate::field::{
    field_add, field_inv, field_mul, field_sub, lemma_field_double_zero, lemma_field_sub_zero,
    modulus, FieldElement,
};
use vstd::prelude::*;

verus! {

/// A point as contracts see it: two residues, or the point at infinity.
pub struct PointModel {
    pub x: nat,
    pub y: nat,
    /// The point is the identity of the group; `x` and `y` then carry no
    /// meaning.
    pub infinity: bool,
}

impl PointModel {
    /// Both coordinates are residues.
    pub open spec fn wf(self) -> bool {
        self.x < modulus() && self.y < modulus()
    }
}

/// A point in affine coordinates.
#[derive(Clone, Copy, Debug, PartialEq, Eq)]
pub struct AffinePoint {
    pub x: FieldElement,
    pub y: FieldElement,
    pub infinity: bool,
}

impl View for AffinePoint {
    type V = PointModel;

    open spec fn view(&self) -> PointModel {
        PointModel { x: self.x@, y: self.y@, infinity: self.infinity }
    }
}

impl AffinePoint {
    /// Both coordinates are canonical.
    pub open spec fn wf(&self) -> bool {
        self.x.wf() && self.y.wf()
    }

    /// The identity of the group.
    pub fn identity() -> (r: Self)
        ensures
            r.wf(),
            r@ == identity_model(),
    {
        AffinePoint { x: FieldElement::zero(), y: FieldElement::one(), infinity: true }
    }

    /// Whether the point is the identity of the group.
    pub fn is_identity(&self) -> (b: bool)
        ensures
            b == self@.infinity,
    {
        self.infinity
    }
}

/// The identity as it is written when a sum comes out as the identity.
pub open spec fn identity_model() -> PointModel {
    PointModel { x: 0, y: 1, infinity: true }
}

/// The pair is added by a slope: both points are finite and they are not
/// each other's negation.
pub open spec fn participates(p: PointModel, q: PointModel) -> bool {
    !p.infinity && !q.infinity && !(p.x == q.x && p.y != q.y)
}

/// The denominator of the slope of the line through `p` and `q`: the
/// difference of the abscissas, or `2 * q.y` for the tangent at `p == q`.
pub open spec fn slope_denominator(p: PointModel, q: PointModel) -> nat {
    if p.x == q.x {
        field_add(q.y, q.y)
    } else {
        field_sub(q.x, p.x)
    }
}

/// The numerator of that slope: the difference of the ordinates, or
/// `3 * q.x^2` for the tangent at `p == q`.
pub open spec fn slope_numerator(p: PointModel, q: PointModel) -> nat {
    if p.x == q.x {
        let square = field_mul(q.x, q.x);
        field_add(field_add(square, square), square)
    } else {
        field_sub(q.y, p.y)
    }
}

/// The third point of the curve on the line through `p` and `q`, mirrored,
/// where `inverse` stands for the inverse of the slope's denominator.
pub open spec fn chord_tangent(p: PointModel, q: PointModel, inverse: nat) -> PointModel {
    let s = field_mul(slope_numerator(p, q), inverse);
    let x = field_sub(field_sub(field_mul(s, s), p.x), q.x);
    let y = field_sub(field_mul(s, field_sub(p.x, x)), p.y);
    PointModel { x, y, infinity: false }
}

/// The sum of `p` and `q`, with `inverse` in the place of the inverse of the
/// slope's denominator.
pub open spec fn add_with_inverse(p: PointModel, q: PointModel, inverse: nat) -> PointModel {
    if q.infinity {
        p
    } else if p.infinity {
        q
    } else if p.x == q.x && p.y != q.y {
        identity_model()
    } else {
        chord_tangent(p, q, inverse)
    }
}

/// The sum of `p` and `q` in the group of the curve.
pub open spec fn point_add(p: PointModel, q: PointModel) -> PointModel {
    add_with_inverse(p, q, field_inv(slope_denominator(p, q)))
}

/// Twice `p`, by the tangent at `p`: the slope is `3 * x^2 / (2 * y)`.
pub open spec fn point_double(p: PointModel) -> PointModel {
    if p.infinity {
        p
    } else {
        let square = field_mul(p.x, p.x);
        let s = field_mul(
            field_add(field_add(square, square), square),
            field_inv(field_add(p.y, p.y)),
        );
        let x = field_sub(field_sub(field_mul(s, s), p.x), p.x);
        let y = field_sub(field_mul(s, field_sub(p.x, x)), p.y);
        PointModel { x, y, infinity: false }
    }
}

/// The negation of `p`: the same abscissa, the opposite ordinate.
pub open spec fn point_neg(p: PointModel) -> PointModel {
    PointModel { x: p.x, y: field_sub(0, p.y), infinity: p.infinity }
}

/// The pair would be added by a tangent of slope `x / 0`: a finite point of
/// ordinate zero, added to itself.
pub open spec fn degenerate(p: PointModel, q: PointModel) -> bool {
    !p.infinity && !q.infinity && p.x == q.x && p.y == q.y && q.y == 0
}

/// A point is determined by its model: points with equal views are equal.
pub proof fn lemma_view_injective(p: AffinePoint, q: AffinePoint)
    requires
        p@ == q@,
    ensures
        p == q,
{
    crate::field::lemma_view_injective(p.x, q.x);
    crate::field::lemma_view_injective(p.y, q.y);
}

/// The denominator of a pair that is added by a slope is zero only for a
/// degenerate pair.
pub proof fn lemma_denominator_zero(p: PointModel, q: PointModel)
    requires
        p.wf(),
        q.wf(),
        participates(p, q),
    ensures
        slope_denominator(p, q) == 0 <==> degenerate(p, q),
{
    lemma_field_sub_zero(q.x, p.x);
    lemma_field_double_zero(q.y);
}

/// Adding a point to itself gives what the doubling formula gives.
pub proof fn lemma_add_self_is_double(p: PointModel)
    ensures
        point_add(p, p) == point_double(p),
{
}

/// Adding a point to its negation gives the identity. A finite point of
/// ordinate zero is its own negation, and is left out.
pub proof fn lemma_add_negation_is_identity(p: PointModel)
    requires
        p.wf(),
        p.infinity || p.y != 0,
    ensures
        point_add(p, point_neg(p)).infinity,
        !p.infinity ==> point_add(p, point_neg(p)) == identity_model(),
{
    reveal(field_sub);
}

/// Adding an identity `e` to a point, on either side, gives the point. With
/// `e` on the left and a `p` that is itself at infinity the sum is `e`, which
/// is `p` only where both are written alike.
pub proof fn lemma_add_identity(p: PointModel, e: PointModel)
    requires
        e.infinity,
    ensures
        point_add(p, e) == p,
        !p.infinity || p == e ==> point_add(e, p) == p,
        p.infinity ==> point_add(e, p) == e,
{
}

} // verus!
