//! Batched addition of affine points with one field inversion per batch.
//!
//! Adding `p` and `q` by the chord-and-tangent rule divides by a
//! denominator. A batch is added in two passes around one shared inversion:
//! the first pass multiplies the denominators into a running product and
//! remembers, for each pair, the product of the denominators before it; the
//! product is inverted once; the second pass walks back and peels the
//! inverse of each denominator off the running state.

use crate::field::{
    field_inv, field_mul, invertible, fq_add, fq_double, fq_inverse, fq_mul, fq_square, fq_sub,
    lemma_field_inv_is, lemma_field_mul_associative, lemma_field_mul_bound,
    lemma_field_mul_commutative, lemma_field_mul_one, lemma_field_sub_zero, modulus, FieldElement,
};
use crate::point::{
    add_with_inverse, degenerate, lemma_denominator_zero, lemma_view_injective, participates,
    point_add,
    slope_denominator, AffinePoint, PointModel,
};
use vstd::prelude::*;

verus! {

/// The scratch state of a [`BatchAdder`] as contracts see it.
pub struct Scratch {
    /// The running product, or its inverse once the batch has been inverted.
    pub state: nat,
    /// For each index of the batch, the product of the denominators before it.
    pub inverses: Seq<nat>,
}

/// What the first pass does to the scratch state for one pair at `idx`.
pub open spec fn phase_one_step(s: Scratch, p: PointModel, q: PointModel, idx: int) -> Scratch {
    if participates(p, q) {
        Scratch {
            state: field_mul(s.state, slope_denominator(p, q)),
            inverses: s.inverses.update(idx, s.state),
        }
    } else {
        s
    }
}

/// The running state that the second pass leaves for one pair.
pub open spec fn phase_two_state(s: Scratch, p: PointModel, q: PointModel) -> nat {
    if participates(p, q) {
        field_mul(s.state, slope_denominator(p, q))
    } else {
        s.state
    }
}

/// The point that the second pass writes for one pair at `idx`.
pub open spec fn phase_two_point(s: Scratch, p: PointModel, q: PointModel, idx: int) -> PointModel {
    add_with_inverse(p, q, field_mul(s.inverses[idx], s.state))
}

/// The models of a sequence of points.
pub open spec fn models(points: Seq<AffinePoint>) -> Seq<PointModel> {
    Seq::new(points.len(), |i: int| points[i]@)
}

/// Every point of the sequence has canonical coordinates.
pub open spec fn all_wf(points: Seq<AffinePoint>) -> bool {
    forall|i: int| 0 <= i < points.len() ==> (#[trigger] points[i]).wf()
}

/// The `len` points found at the indices `0, step, 2 * step, ...`.
pub open spec fn strided(points: Seq<PointModel>, step: int, len: nat) -> Seq<PointModel> {
    Seq::new(len, |i: int| points[i * step])
}

/// No pair of the batch is a finite point of ordinate zero added to itself.
pub open spec fn no_degenerate_pair(ps: Seq<PointModel>, qs: Seq<PointModel>) -> bool {
    forall|i: int| 0 <= i < ps.len() && i < qs.len() ==> !degenerate(#[trigger] ps[i], qs[i])
}

/// What a pair multiplies into the running product: its denominator, or one
/// where it is not added by a slope.
pub open spec fn contribution(p: PointModel, q: PointModel) -> nat {
    if participates(p, q) {
        slope_denominator(p, q)
    } else {
        1
    }
}

/// The product of the contributions of the first `k` pairs.
pub open spec fn prefix_product(ps: Seq<PointModel>, qs: Seq<PointModel>, k: nat) -> nat
    decreases k,
{
    if k == 0 {
        1
    } else {
        field_mul(
            prefix_product(ps, qs, (k - 1) as nat),
            contribution(ps[k - 1], qs[k - 1]),
        )
    }
}

/// The scratch state after the first pass over the first `k` pairs.
pub open spec fn run_phase_one(s: Scratch, ps: Seq<PointModel>, qs: Seq<PointModel>, k: nat) -> Scratch
    decreases k,
{
    if k == 0 {
        s
    } else {
        phase_one_step(run_phase_one(s, ps, qs, (k - 1) as nat), ps[k - 1], qs[k - 1], k - 1)
    }
}

/// The scratch state and the points after the second pass over the pairs
/// from the last down to the one at `k`. The pair at `i` is the point found
/// at `dest[i * step]` when its turn comes, and `qs[i]`.
pub open spec fn run_phase_two(
    s: Scratch,
    dest: Seq<PointModel>,
    step: int,
    qs: Seq<PointModel>,
    k: nat,
) -> (Scratch, Seq<PointModel>)
    decreases qs.len() - k,
{
    if k >= qs.len() {
        (s, dest)
    } else {
        let (s1, d1) = run_phase_two(s, dest, step, qs, k + 1);
        let p = d1[k * step];
        (
            Scratch { state: phase_two_state(s1, p, qs[k as int]), ..s1 },
            d1.update(k * step, phase_two_point(s1, p, qs[k as int], k as int)),
        )
    }
}

/// The scratch state after a reset, the first pass over the whole batch and
/// the inversion.
pub open spec fn inverted_scratch(s: Scratch, ps: Seq<PointModel>, qs: Seq<PointModel>) -> Scratch {
    let s1 = run_phase_one(Scratch { state: 1, ..s }, ps, qs, qs.len());
    Scratch { state: field_inv(s1.state), ..s1 }
}

/// The scratch state and the points after both passes over a batch of `len`
/// pairs taken at the strides `dest_step` and `src_step`.
pub open spec fn batch_result(
    s: Scratch,
    dest: Seq<PointModel>,
    dest_step: int,
    src: Seq<PointModel>,
    src_step: int,
    len: nat,
) -> (Scratch, Seq<PointModel>) {
    let ps = strided(dest, dest_step, len);
    let qs = strided(src, src_step, len);
    run_phase_two(inverted_scratch(s, ps, qs), dest, dest_step, qs, 0)
}

proof fn lemma_stride_bound(i: int, len: int, step: int, n: int)
    by (nonlinear_arith)
    requires
        0 <= i < len,
        0 <= step,
        (len - 1) * step < n,
    ensures
        0 <= i * step < n,
        i * step <= (len - 1) * step,
{
}

proof fn lemma_stride_distinct(i: int, j: int, step: int)
    by (nonlinear_arith)
    requires
        i != j,
        step >= 1,
    ensures
        i * step != j * step,
{
}

/// Prefix products are residues.
pub proof fn lemma_prefix_product_bound(ps: Seq<PointModel>, qs: Seq<PointModel>, k: nat)
    ensures
        prefix_product(ps, qs, k) < modulus(),
{
    if k > 0 {
        lemma_field_mul_bound(
            prefix_product(ps, qs, (k - 1) as nat),
            contribution(ps[k - 1], qs[k - 1]),
        );
    }
}

/// Started from a running state of one, the first pass over `k` pairs leaves
/// the product of their contributions in the running state, and at the index
/// of each pair that is added by a slope the product of the contributions
/// before it.
pub proof fn lemma_phase_one_products(s: Scratch, ps: Seq<PointModel>, qs: Seq<PointModel>, k: nat)
    requires
        s.state == 1,
        k <= s.inverses.len(),
    ensures
        run_phase_one(s, ps, qs, k).state == prefix_product(ps, qs, k),
        run_phase_one(s, ps, qs, k).inverses.len() == s.inverses.len(),
        forall|j: int|
            0 <= j < k && participates(ps[j], qs[j]) ==> #[trigger] run_phase_one(
                s,
                ps,
                qs,
                k,
            ).inverses[j] == prefix_product(ps, qs, j as nat),
    decreases k,
{
    if k > 0 {
        let before = (k - 1) as nat;
        lemma_phase_one_products(s, ps, qs, before);
        lemma_prefix_product_bound(ps, qs, before);
        lemma_field_mul_one(prefix_product(ps, qs, before));
        let r0 = run_phase_one(s, ps, qs, before);
        let r = run_phase_one(s, ps, qs, k);
        assert forall|j: int| 0 <= j < k && participates(ps[j], qs[j]) implies #[trigger] r.inverses[j]
            == prefix_product(ps, qs, j as nat) by {
            if j < before {
                assert(r0.inverses[j] == prefix_product(ps, qs, j as nat));
            }
        }
    }
}

/// One step of the second pass, for a running state that is the inverse of
/// the product of the first `k + 1` contributions: the point written is the
/// sum of the pair, and the state left is the inverse of the product of the
/// first `k` contributions.
proof fn lemma_phase_two_step(s: Scratch, ps: Seq<PointModel>, qs: Seq<PointModel>, k: nat)
    requires
        s.state < modulus(),
        field_mul(s.state, prefix_product(ps, qs, k + 1)) == 1,
        participates(ps[k as int], qs[k as int]) ==> s.inverses[k as int] == prefix_product(ps, qs, k),
    ensures
        phase_two_point(s, ps[k as int], qs[k as int], k as int) == point_add(ps[k as int], qs[k as int]),
        phase_two_state(s, ps[k as int], qs[k as int]) < modulus(),
        field_mul(phase_two_state(s, ps[k as int], qs[k as int]), prefix_product(ps, qs, k)) == 1,
{
    let p = ps[k as int];
    let q = qs[k as int];
    let before = prefix_product(ps, qs, k);
    let c = contribution(p, q);
    assert(prefix_product(ps, qs, k + 1) == field_mul(before, c));
    lemma_prefix_product_bound(ps, qs, k);
    if participates(p, q) {
        let inverse = field_mul(s.inverses[k as int], s.state);
        lemma_field_mul_bound(before, s.state);
        lemma_field_mul_bound(s.state, c);
        // inverse * c == state * (before * c)
        lemma_field_mul_commutative(before, s.state);
        lemma_field_mul_associative(s.state, before, c);
        lemma_field_inv_is(c, inverse);
        // (state * c) * before == state * (before * c)
        lemma_field_mul_associative(s.state, c, before);
        lemma_field_mul_commutative(c, before);
    } else {
        lemma_field_mul_one(before);
    }
}

/// The second pass from the last pair down to the one at `k`, run on a
/// scratch state that holds the inverse of the product of all contributions
/// and the prefix products that the first pass left: every pair from `k` on
/// has been replaced by its sum, no other point has changed, and the running
/// state is the inverse of the product of the first `k` contributions.
proof fn lemma_phase_two_sums(
    s: Scratch,
    dest: Seq<PointModel>,
    step: int,
    qs: Seq<PointModel>,
    k: nat,
)
    requires
        step >= 1 || qs.len() <= 1,
        step >= 0,
        qs.len() > 0 ==> (qs.len() - 1) * step < dest.len(),
        k <= qs.len() <= s.inverses.len(),
        s.state < modulus(),
        field_mul(s.state, prefix_product(strided(dest, step, qs.len()), qs, qs.len())) == 1,
        forall|j: int|
            0 <= j < qs.len() && participates(dest[j * step], qs[j]) ==> #[trigger] s.inverses[j]
                == prefix_product(strided(dest, step, qs.len()), qs, j as nat),
    ensures
        ({
            let (r, out) = run_phase_two(s, dest, step, qs, k);
            &&& r.inverses == s.inverses
            &&& r.state < modulus()
            &&& field_mul(r.state, prefix_product(strided(dest, step, qs.len()), qs, k)) == 1
            &&& out.len() == dest.len()
            &&& forall|i: int|
                k <= i < qs.len() ==> #[trigger] out[i * step] == point_add(dest[i * step], qs[i])
            &&& forall|j: int|
                0 <= j < dest.len() && (forall|i: int| k <= i < qs.len() ==> j != #[trigger] (i
                    * step)) ==> #[trigger] out[j] == dest[j]
        }),
    decreases qs.len() - k,
{
    let n = qs.len();
    let ps = strided(dest, step, n);
    if k < n {
        lemma_phase_two_sums(s, dest, step, qs, k + 1);
        let (s1, d1) = run_phase_two(s, dest, step, qs, k + 1);
        let (r, out) = run_phase_two(s, dest, step, qs, k);
        lemma_stride_bound(k as int, n as int, step, dest.len() as int);
        assert(d1[k * step] == dest[k * step]) by {
            assert forall|i: int| k + 1 <= i < n implies k * step != #[trigger] (i * step) by {
                lemma_stride_distinct(k as int, i, step);
            }
        }
        assert(ps[k as int] == dest[k * step]);
        lemma_phase_two_step(s1, ps, qs, k);
        assert forall|i: int| k <= i < n implies #[trigger] out[i * step] == point_add(
            dest[i * step],
            qs[i],
        ) by {
            lemma_stride_bound(i, n as int, step, dest.len() as int);
            if i != k {
                lemma_stride_distinct(k as int, i, step);
                assert(d1[i * step] == point_add(dest[i * step], qs[i]));
            }
        }
        assert forall|j: int|
            0 <= j < dest.len() && (forall|i: int| k <= i < n ==> j != #[trigger] (i * step))
            implies #[trigger] out[j] == dest[j] by {
            assert(j != k * step);
            assert(d1[j] == dest[j]);
        }
    }
}

/// What `batch_add` leaves is what its parts leave when they are run by hand
/// on the same inputs: a reset, the first pass for every index in rising
/// order, the inversion, and the second pass for every index in falling
/// order.
pub proof fn lemma_batch_is_phases(s: Scratch, dest: Seq<PointModel>, src: Seq<PointModel>)
    requires
        dest.len() == src.len(),
    ensures
        ({
            let first = run_phase_one(Scratch { state: 1, ..s }, dest, src, src.len());
            let inverted = Scratch { state: field_inv(first.state), ..first };
            batch_result(s, dest, 1, src, 1, src.len()) == run_phase_two(inverted, dest, 1, src, 0)
        }),
{
    assert(strided(dest, 1, src.len()) =~= dest);
    assert(strided(src, 1, src.len()) =~= src);
}

/// Both passes around one inversion add a batch pair by pair: started from
/// any scratch state that has room for the batch, and with a product of
/// denominators that has an inverse, the points left at the strided
/// positions of `dest` are the sums of the pairs, and no other point of
/// `dest` has changed.
pub proof fn lemma_batch_result_is_sum(
    s: Scratch,
    dest: Seq<PointModel>,
    dest_step: int,
    src: Seq<PointModel>,
    src_step: int,
    len: nat,
)
    requires
        len <= s.inverses.len(),
        dest_step >= 1 || len <= 1,
        dest_step >= 0,
        len > 0 ==> (len - 1) * dest_step < dest.len(),
        invertible(
            prefix_product(strided(dest, dest_step, len), strided(src, src_step, len), len),
        ),
    ensures
        batch_result(s, dest, dest_step, src, src_step, len).1.len() == dest.len(),
        forall|i: int|
            0 <= i < len ==> #[trigger] batch_result(s, dest, dest_step, src, src_step, len).1[i
                * dest_step] == point_add(dest[i * dest_step], src[i * src_step]),
        forall|j: int|
            0 <= j < dest.len() && (forall|i: int| 0 <= i < len ==> j != #[trigger] (i * dest_step))
                ==> #[trigger] batch_result(s, dest, dest_step, src, src_step, len).1[j] == dest[j],
{
    let ps = strided(dest, dest_step, len);
    let qs = strided(src, src_step, len);
    let s0 = Scratch { state: 1, ..s };
    let s1 = run_phase_one(s0, ps, qs, len);
    let s2 = inverted_scratch(s, ps, qs);
    lemma_phase_one_products(s0, ps, qs, len);
    lemma_prefix_product_bound(ps, qs, len);
    assert forall|j: int| 0 <= j < len && participates(dest[j * dest_step], qs[j]) implies #[trigger] s2.inverses[j]
        == prefix_product(ps, qs, j as nat) by {
        assert(ps[j] == dest[j * dest_step]);
    }
    lemma_phase_two_sums(s2, dest, dest_step, qs, 0);
}

#[derive(Debug)]
pub struct BatchAdder {
    pub inverse_state: FieldElement,
    pub inverses: Vec<FieldElement>,
}

impl View for BatchAdder {
    type V = Scratch;

    open spec fn view(&self) -> Scratch {
        Scratch {
            state: self.inverse_state@,
            inverses: Seq::new(self.inverses@.len(), |i: int| self.inverses@[i]@),
        }
    }
}

impl BatchAdder {
    /// Every element of the scratch state is canonical.
    pub open spec fn wf(&self) -> bool {
        &&& self.inverse_state.wf()
        &&& forall|i: int| 0 <= i < self.inverses@.len() ==> (#[trigger] self.inverses@[i]).wf()
    }

    /// An adder for batches of up to `max_batch_cnt` pairs.
    pub fn new(max_batch_cnt: usize) -> (adder: Self)
        ensures
            adder.wf(),
            adder@ == (Scratch { state: 1, inverses: Seq::new(max_batch_cnt as nat, |i: int| 1nat) }),
    {
        let one = FieldElement::one();
        let mut inverses: Vec<FieldElement> = Vec::with_capacity(max_batch_cnt);
        let mut i: usize = 0;
        while i < max_batch_cnt
            invariant
                i <= max_batch_cnt,
                inverses@.len() == i,
                one@ == 1,
                one.wf(),
                forall|k: int| 0 <= k < i ==> #[trigger] inverses@[k] == one,
            decreases max_batch_cnt - i,
        {
            inverses.push(one);
            i += 1;
        }
        let adder = BatchAdder { inverse_state: one, inverses };
        assert(adder@.inverses =~= Seq::new(max_batch_cnt as nat, |i: int| 1nat));
        adder
    }

    /// Adds `src[i]` to `dest[i]` for every index of the two slices, with one
    /// field inversion for the whole batch.
    pub fn batch_add(&mut self, dest: &mut [AffinePoint], src: &[AffinePoint])
        requires
            old(self).wf(),
            all_wf(old(dest)@),
            all_wf(src@),
            old(dest)@.len() == src@.len(),
            old(dest)@.len() <= old(self)@.inverses.len(),
            no_degenerate_pair(models(old(dest)@), models(src@)),
        ensures
            final(self).wf(),
            all_wf(final(dest)@),
            final(dest)@.len() == old(dest)@.len(),
            forall|i: int|
                0 <= i < old(dest)@.len() ==> (#[trigger] final(dest)@[i])@ == point_add(
                    old(dest)@[i]@,
                    src@[i]@,
                ),
            (final(self)@, models(final(dest)@)) == batch_result(
                old(self)@,
                models(old(dest)@),
                1,
                models(src@),
                1,
                src@.len(),
            ),
    {
        let len = dest.len();
        let ghost before = models(dest@);
        proof {
            assert(strided(before, 1, len as nat) =~= before);
            assert(strided(models(src@), 1, len as nat) =~= models(src@));
        }
        self.add_strided(dest, 1, src, 1, len);
        proof {
            lemma_batch_result_is_sum(old(self)@, before, 1, models(src@), 1, len as nat);
            let out = models(dest@);
            assert forall|i: int| 0 <= i < len implies (#[trigger] dest@[i])@ == point_add(
                old(dest)@[i]@,
                src@[i]@,
            ) by {
                assert(out[i * 1] == point_add(before[i * 1], models(src@)[i * 1]));
                assert(out[i] == dest@[i]@);
            }
        }
    }

    /// Adds `src[i * src_step]` to `dest[i * dest_step]` for `i` below `len`,
    /// with one field inversion for the whole batch. With a `dest_step` of at
    /// least one, every other point of `dest` is left as it was. A batch of
    /// no pairs asks nothing of the slices and leaves `dest` as it was.
    pub fn batch_add_step_n(
        &mut self,
        dest: &mut [AffinePoint],
        dest_step: usize,
        src: &[AffinePoint],
        src_step: usize,
        len: usize,
    )
        requires
            old(self).wf(),
            all_wf(old(dest)@),
            all_wf(src@),
            len > 0 ==> (len - 1) * dest_step < old(dest)@.len(),
            len > 0 ==> (len - 1) * src_step < src@.len(),
            len <= old(self)@.inverses.len(),
            no_degenerate_pair(
                strided(models(old(dest)@), dest_step as int, len as nat),
                strided(models(src@), src_step as int, len as nat),
            ),
        ensures
            final(self).wf(),
            all_wf(final(dest)@),
            final(dest)@.len() == old(dest)@.len(),
            (final(self)@, models(final(dest)@)) == batch_result(
                old(self)@,
                models(old(dest)@),
                dest_step as int,
                models(src@),
                src_step as int,
                len as nat,
            ),
            dest_step >= 1 || len <= 1 ==> forall|i: int|
                0 <= i < len ==> (#[trigger] final(dest)@[i * dest_step])@ == point_add(
                    old(dest)@[i * dest_step]@,
                    src@[i * src_step]@,
                ),
            dest_step >= 1 || len <= 1 ==> forall|j: int|
                0 <= j < old(dest)@.len() && (forall|i: int|
                    0 <= i < len ==> j != #[trigger] (i * dest_step))
                    ==> #[trigger] final(dest)@[j] == old(dest)@[j],
            len == 0 ==> final(dest)@ == old(dest)@,
    {
        let ghost before = models(dest@);
        self.add_strided(dest, dest_step, src, src_step, len);
        proof {
            if len == 0 {
                assert forall|j: int| 0 <= j < dest@.len() implies dest@[j] == old(dest)@[j] by {
                    assert(models(dest@)[j] == before[j]);
                    lemma_view_injective(dest@[j], old(dest)@[j]);
                }
                assert(dest@ =~= old(dest)@);
            }
            if dest_step >= 1 || len <= 1 {
                lemma_batch_result_is_sum(
                    old(self)@,
                    before,
                    dest_step as int,
                    models(src@),
                    src_step as int,
                    len as nat,
                );
                let out = models(dest@);
                assert forall|i: int| 0 <= i < len implies (#[trigger] dest@[i * dest_step])@
                    == point_add(old(dest)@[i * dest_step]@, src@[i * src_step]@) by {
                    lemma_stride_bound(i, len as int, dest_step as int, dest@.len() as int);
                    lemma_stride_bound(i, len as int, src_step as int, src@.len() as int);
                    assert(out[i * dest_step] == point_add(
                        before[i * dest_step],
                        models(src@)[i * src_step],
                    ));
                }
                assert forall|j: int|
                    0 <= j < old(dest)@.len() && (forall|i: int|
                        0 <= i < len ==> j != #[trigger] (i * dest_step)) implies #[trigger] dest@[j]
                    == old(dest)@[j] by {
                    assert(out[j] == before[j]);
                    lemma_view_injective(dest@[j], old(dest)@[j]);
                }
            }
        }
    }

    /// Both passes and the inversion between them, over `len` pairs taken at
    /// the given strides.
    fn add_strided(
        &mut self,
        dest: &mut [AffinePoint],
        dest_step: usize,
        src: &[AffinePoint],
        src_step: usize,
        len: usize,
    )
        requires
            old(self).wf(),
            all_wf(old(dest)@),
            all_wf(src@),
            len <= old(self)@.inverses.len(),
            len > 0 ==> (len - 1) * dest_step < old(dest)@.len(),
            len > 0 ==> (len - 1) * src_step < src@.len(),
            no_degenerate_pair(
                strided(models(old(dest)@), dest_step as int, len as nat),
                strided(models(src@), src_step as int, len as nat),
            ),
        ensures
            final(self).wf(),
            all_wf(final(dest)@),
            final(dest)@.len() == old(dest)@.len(),
            (final(self)@, models(final(dest)@)) == batch_result(
                old(self)@,
                models(old(dest)@),
                dest_step as int,
                models(src@),
                src_step as int,
                len as nat,
            ),
            invertible(
                prefix_product(
                    strided(models(old(dest)@), dest_step as int, len as nat),
                    strided(models(src@), src_step as int, len as nat),
                    len as nat,
                ),
            ),
    {
        let ghost before = models(dest@);
        let ghost ps = strided(before, dest_step as int, len as nat);
        let ghost qs = strided(models(src@), src_step as int, len as nat);
        let ghost s0 = Scratch { state: 1, ..self@ };
        let dest_len = dest.len();
        let src_len = src.len();
        self.reset();
        let mut i: usize = 0;
        while i < len
            invariant
                i <= len <= self@.inverses.len(),
                self.wf(),
                all_wf(dest@),
                all_wf(src@),
                dest@.len() == dest_len,
                src@.len() == src_len,
                models(dest@) == before,
                len > 0 ==> (len - 1) * dest_step < dest@.len(),
                len > 0 ==> (len - 1) * src_step < src@.len(),
                ps == strided(before, dest_step as int, len as nat),
                qs == strided(models(src@), src_step as int, len as nat),
                no_degenerate_pair(ps, qs),
                self@ == run_phase_one(s0, ps, qs, i as nat),
                self@.state != 0,
            decreases len - i,
        {
            proof {
                lemma_stride_bound(i as int, len as int, dest_step as int, dest@.len() as int);
                lemma_stride_bound(i as int, len as int, src_step as int, src@.len() as int);
            }
            let p = dest[i * dest_step];
            let q = src[i * src_step];
            proof {
                assert(ps[i as int] == before[i * dest_step]);
                assert(qs[i as int] == q@);
                if participates(p@, q@) {
                    lemma_denominator_zero(p@, q@);
                }
            }
            self.batch_add_phase_one(&p, &q, i);
            i += 1;
        }
        self.inverse();
        let ghost s2 = self@;
        proof {
            lemma_phase_one_products(s0, ps, qs, len as nat);
            assert(s2 == inverted_scratch(old(self)@, ps, qs));
        }
        let mut i: usize = len;
        while i > 0
            invariant
                i <= len <= self@.inverses.len(),
                self.wf(),
                all_wf(dest@),
                all_wf(src@),
                dest@.len() == before.len(),
                dest@.len() == dest_len,
                src@.len() == src_len,
                len > 0 ==> (len - 1) * dest_step < dest@.len(),
                len > 0 ==> (len - 1) * src_step < src@.len(),
                qs == strided(models(src@), src_step as int, len as nat),
                (self@, models(dest@)) == run_phase_two(s2, before, dest_step as int, qs, i as nat),
            decreases i,
        {
            i -= 1;
            proof {
                lemma_stride_bound(i as int, len as int, dest_step as int, dest@.len() as int);
                lemma_stride_bound(i as int, len as int, src_step as int, src@.len() as int);
            }
            let ghost points = models(dest@);
            let mut p = dest[i * dest_step];
            let q = src[i * src_step];
            self.batch_add_phase_two(&mut p, &q, i);
            dest[i * dest_step] = p;
            proof {
                assert(qs[i as int] == q@);
                assert(models(dest@) =~= points.update(i * dest_step, p@));
            }
        }
    }

    /// Replaces the running state by its inverse.
    pub fn inverse(&mut self)
        requires
            old(self).wf(),
            old(self)@.state != 0,
        ensures
            final(self).wf(),
            final(self)@ == (Scratch { state: field_inv(old(self)@.state), ..old(self)@ }),
            field_mul(final(self)@.state, old(self)@.state) == 1,
    {
        let inverted = fq_inverse(&self.inverse_state).unwrap();
        proof {
            lemma_field_inv_is(self.inverse_state@, inverted@);
        }
        self.inverse_state = inverted;
    }

    /// Sets the running state to one, ready for a new batch.
    pub fn reset(&mut self)
        requires
            old(self).wf(),
        ensures
            final(self).wf(),
            final(self)@ == (Scratch { state: 1, ..old(self)@ }),
    {
        self.inverse_state = FieldElement::one();
    }

    /// The first pass for the pair `(p, q)` at index `idx` of the batch: a
    /// pair that is added by a slope stores the running product at `idx` and
    /// multiplies its denominator into it; any other pair changes nothing.
    pub fn batch_add_phase_one(&mut self, p: &AffinePoint, q: &AffinePoint, idx: usize)
        requires
            old(self).wf(),
            p.wf(),
            q.wf(),
            idx < old(self)@.inverses.len(),
        ensures
            final(self).wf(),
            final(self)@ == phase_one_step(old(self)@, p@, q@, idx as int),
            old(self)@.state != 0 && slope_denominator(p@, q@) != 0 ==> final(self)@.state != 0,
    {
        if p.is_identity() || q.is_identity() {
            return ;
        }
        let mut delta_x = fq_sub(&q.x, &p.x);
        proof {
            lemma_field_sub_zero(q.x@, p.x@);
        }
        if delta_x.is_zero() {
            let delta_y = fq_sub(&q.y, &p.y);
            proof {
                lemma_field_sub_zero(q.y@, p.y@);
            }
            if !delta_y.is_zero() {
                return ;
            }
            delta_x = fq_add(&q.y, &q.y);
        }
        let ghost before = self@;
        if self.inverse_state.is_one() {
            self.inverses[idx] = FieldElement::one();
            self.inverse_state = delta_x;
            proof {
                lemma_field_mul_one(delta_x@);
            }
        } else {
            self.inverses[idx] = self.inverse_state;
            self.inverse_state = fq_mul(&self.inverse_state, &delta_x);
        }
        assert(self@.inverses =~= before.inverses.update(idx as int, before.state));
    }

    /// The second pass for the pair `(p, q)` at index `idx` of the batch,
    /// to be run from the last index down once the running product has been
    /// inverted: writes the sum to `p`, and multiplies the denominator of a
    /// pair that is added by a slope back into the running state.
    pub fn batch_add_phase_two(&mut self, p: &mut AffinePoint, q: &AffinePoint, idx: usize)
        requires
            old(self).wf(),
            old(p).wf(),
            q.wf(),
            idx < old(self)@.inverses.len(),
        ensures
            final(self).wf(),
            final(p).wf(),
            final(p)@ == phase_two_point(old(self)@, old(p)@, q@, idx as int),
            final(self)@ == (Scratch {
                state: phase_two_state(old(self)@, old(p)@, q@),
                ..old(self)@
            }),
            old(self)@.state != 0 && slope_denominator(old(p)@, q@) != 0 ==> final(self)@.state
                != 0,
    {
        if p.is_identity() || q.is_identity() {
            if !q.is_identity() {
                *p = *q;
            }
            return ;
        }
        let inverse = fq_mul(&self.inverses[idx], &self.inverse_state);
        let mut delta_x = fq_sub(&q.x, &p.x);
        let mut delta_y = fq_sub(&q.y, &p.y);
        proof {
            lemma_field_sub_zero(q.x@, p.x@);
            lemma_field_sub_zero(q.y@, p.y@);
        }
        if delta_x.is_zero() {
            if !delta_y.is_zero() {
                *p = AffinePoint::identity();
                return ;
            }
            delta_y = fq_square(&q.x);
            delta_y = fq_add(&fq_add(&delta_y, &delta_y), &delta_y);
            delta_x = fq_double(&q.y);
        }
        self.inverse_state = fq_mul(&self.inverse_state, &delta_x);
        let s = fq_mul(&delta_y, &inverse);
        let ss = fq_mul(&s, &s);
        let x = fq_sub(&fq_sub(&ss, &p.x), &q.x);
        let y = fq_sub(&fq_mul(&s, &fq_sub(&p.x, &x)), &p.y);
        p.x = x;
        p.y = y;
    }
}

} // verus!
