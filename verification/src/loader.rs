//! The loader: the bridge that lets one piece of verifier logic run either on
//! plain constants or as circuit-building operations. It hands out `Scalar`
//! and `EcPoint` handles with unique, monotonically increasing identity
//! indices, folds arithmetic on constants without touching the circuit,
//! caches repeated constant-point assignments, and batches weighted point
//! sums into one multi-scalar multiplication.

use crate::chip::{
    ctx_extends, ctx_wf, lemma_lc_value_extends, lemma_lc_value_extends_prod,
    lemma_msm_cells_value_extends, lemma_msm_cells_value_wf, lemma_opt_pt_add_assoc,
    lemma_opt_pt_add_comm, lemma_opt_pt_add_zero, lemma_opt_pt_scale_one,
    lemma_points_sum_value_extends, lemma_points_sum_value_wf, lemma_prefix_index, lc_value,
    msm_cells_value, opt_fe_add, opt_fe_mul, opt_fe_neg, opt_fe_sub, opt_pt_add, opt_pt_scale,
    opt_pt_wf, points_sum_value, prod_lc_value, AssignedEcPoint, AssignedScalar, Ctx, EccChip,
    ScalarChip,
};
use crate::field::{
    fe_add, fe_has_inv, fe_mul, fe_neg, fe_one, fe_sub, fe_wf, fe_zero, lemma_fe_add_comm,
    lemma_fe_add_neg, lemma_fe_add_zero, lemma_fe_mul_comm, lemma_fe_mul_neg_one,
    lemma_fe_mul_one, lemma_fe_nonzero_has_inv, Fe, FIELD_ORDER,
};
use crate::group::{pt_wf, pt_zero, Pt};
use vstd::prelude::*;

verus! {

/// A value handled by the loader: either a compile-time constant or a handle
/// of a circuit-assigned cell.
#[derive(Clone, Copy, Debug)]
pub enum Value<T, L> {
    Constant(T),
    Assigned(L),
}

/// A scalar handle: an identity index unique within its loader, plus the
/// constant-or-assigned value it stands for. Two scalars are the same handle
/// exactly when their indices match.
#[derive(Clone, Copy, Debug)]
pub struct Scalar {
    pub index: usize,
    pub value: Value<Fe, AssignedScalar>,
}

/// A curve-point handle: an identity index unique within its loader, plus
/// the assigned circuit point it stands for.
#[derive(Clone, Copy, Debug)]
pub struct EcPoint {
    pub index: usize,
    pub assigned: AssignedEcPoint,
}

impl PartialEq for Scalar {
    /// Equality of scalar handles is identity-based: two handles are equal
    /// exactly when their indices match, never by numeric value.
    fn eq(&self, other: &Scalar) -> (r: bool) {
        self.index == other.index
    }
}

impl vstd::std_specs::cmp::PartialEqSpecImpl for Scalar {
    open spec fn obeys_eq_spec() -> bool {
        true
    }

    open spec fn eq_spec(&self, other: &Scalar) -> bool {
        self.index == other.index
    }
}

impl PartialEq for EcPoint {
    /// Equality of point handles is identity-based, as for scalars.
    fn eq(&self, other: &EcPoint) -> (r: bool) {
        self.index == other.index
    }
}

impl vstd::std_specs::cmp::PartialEqSpecImpl for EcPoint {
    open spec fn obeys_eq_spec() -> bool {
        true
    }

    open spec fn eq_spec(&self, other: &EcPoint) -> bool {
        self.index == other.index
    }
}

/// The one error surfaced to callers: an equality assertion between two
/// handles whose known values differ, labeled with the caller's annotation.
#[derive(Debug, PartialEq, Eq)]
pub enum Error {
    AssertionFailure(String),
}

/// The loader context: the chip set, the circuit-building context, the two
/// identity counters, the constant-point cache, and the row-cost log.
pub struct Halo2Loader {
    pub ecc_chip: EccChip,
    pub ctx: Ctx,
    pub num_scalar: usize,
    pub num_ec_point: usize,
    pub const_ec_point: Vec<((Fe, Fe), EcPoint)>,
    pub row_meterings: Vec<(String, usize)>,
}

/// The field value a scalar handle stands for, `None` when it is an assigned
/// cell whose witness is unknown.
pub open spec fn scalar_value(l: Halo2Loader, s: Scalar) -> Option<Fe> {
    match s.value {
        Value::Constant(c) => Some(c),
        Value::Assigned(a) => l.ctx.scalar_cells@[a.cell as int],
    }
}

/// The group value a point handle stands for.
pub open spec fn point_value(l: Halo2Loader, p: EcPoint) -> Option<Pt> {
    l.ctx.point_cells@[p.assigned.cell as int]
}

/// A scalar handle is well-formed for a loader when its identity was issued
/// by it and its value refers into the loader's context.
pub open spec fn scalar_wf(l: Halo2Loader, s: Scalar) -> bool {
    s.index < l.num_scalar && match s.value {
        Value::Constant(c) => fe_wf(c),
        Value::Assigned(a) => a.cell < l.ctx.scalar_cells@.len(),
    }
}

/// A point handle is well-formed for a loader when its identity was issued
/// by it and its assigned cell refers into the loader's context.
pub open spec fn ec_point_wf(l: Halo2Loader, p: EcPoint) -> bool {
    p.index < l.num_ec_point && p.assigned.cell < l.ctx.point_cells@.len()
}

/// First cache entry for the given affine coordinates, if any.
pub open spec fn cache_lookup(cache: Seq<((Fe, Fe), EcPoint)>, x: Fe, y: Fe) -> Option<EcPoint>
    decreases cache.len(),
{
    if cache.len() == 0 {
        None
    } else if cache.first().0.0 == x && cache.first().0.1 == y {
        Some(cache.first().1)
    } else {
        cache_lookup(cache.drop_first(), x, y)
    }
}

/// The loader's invariant: the context is well-formed, and every cache entry
/// holds a well-formed handle whose cell holds exactly the cached point;
/// cached coordinates are pairwise distinct, so a constant point is assigned
/// at most once.
pub open spec fn loader_wf(l: Halo2Loader) -> bool {
    ctx_wf(l.ctx) && (forall|i: int| 0 <= i < l.const_ec_point@.len() ==> {
        let e = #[trigger] l.const_ec_point@[i];
        fe_wf(e.0.0) && fe_wf(e.0.1) && ec_point_wf(l, e.1) && point_value(l, e.1) == Some(
            Pt { x: e.0.0, y: e.0.1 },
        )
    }) && (forall|i: int, j: int|
        0 <= i < j < l.const_ec_point@.len() ==> (#[trigger] l.const_ec_point@[i]).0 != (
        #[trigger] l.const_ec_point@[j]).0)
}

/// What every loader operation does to the state: cells and cache only grow,
/// counters and rows never go back, the chips stay.
pub open spec fn loader_extends(new: Halo2Loader, old: Halo2Loader) -> bool {
    ctx_extends(new.ctx, old.ctx) && new.num_scalar >= old.num_scalar && new.num_ec_point
        >= old.num_ec_point && old.const_ec_point@.is_prefix_of(new.const_ec_point@)
        && new.ecc_chip == old.ecc_chip
}

/// The loader's point-side state is untouched.
pub open spec fn preserves_point_state(new: Halo2Loader, old: Halo2Loader) -> bool {
    new.num_ec_point == old.num_ec_point && new.const_ec_point@ == old.const_ec_point@
        && new.ctx.point_cells@ == old.ctx.point_cells@
}

/// The loader's scalar-side state is untouched.
pub open spec fn preserves_scalar_state(new: Halo2Loader, old: Halo2Loader) -> bool {
    new.num_scalar == old.num_scalar && new.ctx.scalar_cells@ == old.ctx.scalar_cells@
}

/// The row-cost log and the chips are untouched.
pub open spec fn preserves_misc(new: Halo2Loader, old: Halo2Loader) -> bool {
    new.row_meterings@ == old.row_meterings@ && new.ecc_chip == old.ecc_chip
}

/// A handle that was well-formed stays well-formed, with the same value,
/// under any loader operation.
pub proof fn lemma_scalar_preserved(old_l: Halo2Loader, new_l: Halo2Loader, s: Scalar)
    requires
        scalar_wf(old_l, s),
        loader_extends(new_l, old_l),
    ensures
        scalar_wf(new_l, s),
        scalar_value(new_l, s) == scalar_value(old_l, s),
{
    match s.value {
        Value::Assigned(a) => {
            lemma_prefix_index(old_l.ctx.scalar_cells@, new_l.ctx.scalar_cells@, a.cell as int);
        },
        Value::Constant(_) => {},
    }
}

/// The point-handle counterpart of `lemma_scalar_preserved`.
pub proof fn lemma_ec_point_preserved(old_l: Halo2Loader, new_l: Halo2Loader, p: EcPoint)
    requires
        ec_point_wf(old_l, p),
        loader_extends(new_l, old_l),
    ensures
        ec_point_wf(new_l, p),
        point_value(new_l, p) == point_value(old_l, p),
{
    lemma_prefix_index(old_l.ctx.point_cells@, new_l.ctx.point_cells@, p.assigned.cell as int);
}

/// An operation that leaves the cache alone and only extends the context
/// keeps the loader's invariant.
pub proof fn lemma_loader_wf_preserved(old_l: Halo2Loader, new_l: Halo2Loader)
    requires
        loader_wf(old_l),
        loader_extends(new_l, old_l),
        new_l.const_ec_point@ == old_l.const_ec_point@,
        ctx_wf(new_l.ctx),
    ensures
        loader_wf(new_l),
{
    assert forall|i: int| 0 <= i < new_l.const_ec_point@.len() implies {
        let e = #[trigger] new_l.const_ec_point@[i];
        fe_wf(e.0.0) && fe_wf(e.0.1) && ec_point_wf(new_l, e.1) && point_value(new_l, e.1) == Some(
            Pt { x: e.0.0, y: e.0.1 },
        )
    } by {
        let e = new_l.const_ec_point@[i];
        assert(old_l.const_ec_point@[i] == e);
        lemma_ec_point_preserved(old_l, new_l, e.1);
    }
}

/// What assigning a constant point does to the loader: a cache hit returns
/// the cached handle and changes nothing; a miss assigns the point into a
/// fresh cell, issues the next point identity, and caches the handle.
pub open spec fn assign_const_ec_point_rel(
    pre: Halo2Loader,
    constant: Pt,
    post: Halo2Loader,
    r: EcPoint,
) -> bool {
    match cache_lookup(pre.const_ec_point@, constant.x, constant.y) {
        Some(e) => r == e && post == pre,
        None => r.index == pre.num_ec_point && r.assigned.cell == pre.ctx.point_cells@.len()
            && post.num_ec_point == pre.num_ec_point + 1 && post.ctx.point_cells@
            == pre.ctx.point_cells@.push(Some(constant)) && post.ctx.offset == pre.ctx.offset + 1
            && post.ctx.scalar_cells@ == pre.ctx.scalar_cells@ && post.num_scalar == pre.num_scalar
            && post.const_ec_point@ == pre.const_ec_point@.push(((constant.x, constant.y), r))
            && post.row_meterings@ == pre.row_meterings@ && post.ecc_chip == pre.ecc_chip,
    }
}

/// A missing key is missing from every entry.
pub proof fn lemma_cache_lookup_none(cache: Seq<((Fe, Fe), EcPoint)>, x: Fe, y: Fe)
    requires
        cache_lookup(cache, x, y) is None,
    ensures
        forall|i: int| 0 <= i < cache.len() ==> !((#[trigger] cache[i]).0.0 == x && cache[i].0.1
            == y),
    decreases cache.len(),
{
    if cache.len() > 0 {
        lemma_cache_lookup_none(cache.drop_first(), x, y);
        assert forall|i: int| 0 <= i < cache.len() implies !((#[trigger] cache[i]).0.0 == x
            && cache[i].0.1 == y) by {
            if i > 0 {
                assert(cache.drop_first()[i - 1] == cache[i]);
            }
        }
    }
}

/// Appending an entry under a fresh key makes lookups of that key find it.
pub proof fn lemma_cache_lookup_push(cache: Seq<((Fe, Fe), EcPoint)>, x: Fe, y: Fe, p: EcPoint)
    requires
        cache_lookup(cache, x, y) is None,
    ensures
        cache_lookup(cache.push(((x, y), p)), x, y) == Some(p),
    decreases cache.len(),
{
    if cache.len() == 0 {
        assert(cache.push(((x, y), p)).first() == ((x, y), p));
    } else {
        assert(cache.push(((x, y), p)).first() == cache.first());
        assert(cache.push(((x, y), p)).drop_first() =~= cache.drop_first().push(((x, y), p)));
        lemma_cache_lookup_push(cache.drop_first(), x, y, p);
    }
}

impl Halo2Loader {
    /// Wraps a chip set and a circuit context; counters start at zero and
    /// the constant-point cache starts empty.
    pub fn new(ecc_chip: EccChip, ctx: Ctx) -> (r: Halo2Loader)
        requires
            ctx_wf(ctx),
        ensures
            r.ecc_chip == ecc_chip,
            r.ctx == ctx,
            r.num_scalar == 0,
            r.num_ec_point == 0,
            r.const_ec_point@.len() == 0,
            r.row_meterings@.len() == 0,
            loader_wf(r),
    {
        Halo2Loader {
            ecc_chip,
            ctx,
            num_scalar: 0,
            num_ec_point: 0,
            const_ec_point: Vec::new(),
            row_meterings: Vec::new(),
        }
    }

    /// Consumes the loader, handing the circuit context back to the caller.
    pub fn into_ctx(self) -> (r: Ctx)
        ensures
            r == self.ctx,
    {
        self.ctx
    }

    /// The curve-arithmetic chip.
    pub fn ecc_chip(&self) -> (r: &EccChip)
        ensures
            *r == self.ecc_chip,
    {
        &self.ecc_chip
    }

    /// The scalar-arithmetic chip.
    pub fn scalar_chip(&self) -> (r: &ScalarChip)
        ensures
            *r == self.ecc_chip.scalar_chip,
    {
        &self.ecc_chip.scalar_chip
    }

    /// The circuit-building context.
    pub fn ctx(&self) -> (r: &Ctx)
        ensures
            *r == self.ctx,
    {
        &self.ctx
    }

    /// Wraps a value as a fresh scalar handle: the next scalar identity is
    /// issued even when the value is a folded constant.
    pub(crate) fn scalar(&mut self, value: Value<Fe, AssignedScalar>) -> (r: Scalar)
        requires
            old(self).num_scalar < usize::MAX,
            value matches Value::Constant(c) ==> fe_wf(c),
            value matches Value::Assigned(a) ==> a.cell < old(self).ctx.scalar_cells@.len(),
        ensures
            r.index == old(self).num_scalar,
            r.value == value,
            final(self).num_scalar == old(self).num_scalar + 1,
            final(self).ctx == old(self).ctx,
            final(self).num_ec_point == old(self).num_ec_point,
            final(self).const_ec_point@ == old(self).const_ec_point@,
            final(self).row_meterings@ == old(self).row_meterings@,
            final(self).ecc_chip == old(self).ecc_chip,
            scalar_wf(*final(self), r),
            loader_extends(*final(self), *old(self)),
    {
        let index = self.num_scalar;
        self.num_scalar = self.num_scalar + 1;
        Scalar { index, value }
    }

    /// Assigns a constant into a fresh circuit cell (constants are never
    /// cached on the scalar side) and wraps it as a fresh handle.
    pub fn assign_const_scalar(&mut self, constant: Fe) -> (r: Scalar)
        requires
            fe_wf(constant),
            loader_wf(*old(self)),
            old(self).num_scalar < usize::MAX,
            old(self).ctx.offset < usize::MAX,
        ensures
            r.index == old(self).num_scalar,
            final(self).num_scalar == old(self).num_scalar + 1,
            r.value matches Value::Assigned(a) && a.cell == old(self).ctx.scalar_cells@.len(),
            final(self).ctx.scalar_cells@ == old(self).ctx.scalar_cells@.push(Some(constant)),
            final(self).ctx.offset == old(self).ctx.offset + 1,
            scalar_value(*final(self), r) == Some(constant),
            scalar_wf(*final(self), r),
            preserves_point_state(*final(self), *old(self)),
            preserves_misc(*final(self), *old(self)),
            loader_wf(*final(self)),
            loader_extends(*final(self), *old(self)),
    {
        let assigned = self.ecc_chip.scalar_chip.assign_constant(&mut self.ctx, constant);
        let r = self.scalar(Value::Assigned(assigned));
        proof {
            lemma_loader_wf_preserved(*old(self), *self);
        }
        r
    }

    /// Assigns a possibly-unknown witness into a fresh circuit cell and
    /// wraps it as a fresh handle.
    pub fn assign_scalar(&mut self, scalar: Option<Fe>) -> (r: Scalar)
        requires
            scalar matches Some(v) ==> fe_wf(v),
            loader_wf(*old(self)),
            old(self).num_scalar < usize::MAX,
            old(self).ctx.offset < usize::MAX,
        ensures
            r.index == old(self).num_scalar,
            final(self).num_scalar == old(self).num_scalar + 1,
            r.value matches Value::Assigned(a) && a.cell == old(self).ctx.scalar_cells@.len(),
            final(self).ctx.scalar_cells@ == old(self).ctx.scalar_cells@.push(scalar),
            final(self).ctx.offset == old(self).ctx.offset + 1,
            scalar_value(*final(self), r) == scalar,
            scalar_wf(*final(self), r),
            preserves_point_state(*final(self), *old(self)),
            preserves_misc(*final(self), *old(self)),
            loader_wf(*final(self)),
            loader_extends(*final(self), *old(self)),
    {
        let assigned = self.ecc_chip.scalar_chip.assign_integer(&mut self.ctx, scalar);
        let r = self.scalar(Value::Assigned(assigned));
        proof {
            lemma_loader_wf_preserved(*old(self), *self);
        }
        r
    }

    /// Loads a constant as a fresh handle without touching the circuit: the
    /// constant stays foldable.
    pub fn load_const(&mut self, value: &Fe) -> (r: Scalar)
        requires
            fe_wf(*value),
            old(self).num_scalar < usize::MAX,
        ensures
            r.index == old(self).num_scalar,
            r.value == Value::Constant::<Fe, AssignedScalar>(*value),
            final(self).num_scalar == old(self).num_scalar + 1,
            final(self).ctx == old(self).ctx,
            scalar_value(*final(self), r) == Some(*value),
            scalar_wf(*final(self), r),
            preserves_point_state(*final(self), *old(self)),
            preserves_misc(*final(self), *old(self)),
            loader_wf(*old(self)) ==> loader_wf(*final(self)),
            loader_extends(*final(self), *old(self)),
    {
        let r = self.scalar(Value::Constant(*value));
        proof {
            if loader_wf(*old(self)) {
                lemma_loader_wf_preserved(*old(self), *self);
            }
        }
        r
    }

    /// Adds two scalar handles: folds when both are constants, otherwise
    /// emits one linear-combination row that absorbs any constant operand as
    /// the row's constant term.
    pub fn add(&mut self, lhs: &Scalar, rhs: &Scalar) -> (r: Scalar)
        requires
            loader_wf(*old(self)),
            scalar_wf(*old(self), *lhs),
            scalar_wf(*old(self), *rhs),
            old(self).num_scalar < usize::MAX,
            old(self).ctx.offset < usize::MAX,
        ensures
            r.index == old(self).num_scalar,
            final(self).num_scalar == old(self).num_scalar + 1,
            scalar_value(*final(self), r) == opt_fe_add(
                scalar_value(*old(self), *lhs),
                scalar_value(*old(self), *rhs),
            ),
            (match (lhs.value, rhs.value) {
                (Value::Constant(a), Value::Constant(b)) => r.value == Value::Constant::<
                    Fe,
                    AssignedScalar,
                >(fe_add(a, b)) && final(self).ctx == old(self).ctx,
                _ => final(self).ctx.scalar_cells@.len() == old(self).ctx.scalar_cells@.len() + 1
                    && final(self).ctx.offset == old(self).ctx.offset + 1 && (r.value matches Value::Assigned(a)
                    && a.cell == old(self).ctx.scalar_cells@.len()),
            }),
            scalar_wf(*final(self), r),
            preserves_point_state(*final(self), *old(self)),
            preserves_misc(*final(self), *old(self)),
            loader_wf(*final(self)),
            loader_extends(*final(self), *old(self)),
    {
        let ghost cells0 = self.ctx.scalar_cells@;
        let output = match (lhs.value, rhs.value) {
            (Value::Constant(a), Value::Constant(b)) => Value::Constant(a.add(b)),
            (Value::Assigned(a), Value::Constant(c)) | (Value::Constant(c), Value::Assigned(a)) => {
                let mut terms: Vec<(Fe, AssignedScalar)> = Vec::new();
                terms.push((Fe::one(), a));
                let cell = self.ecc_chip.scalar_chip.sum_with_coeff_and_const(
                    &mut self.ctx,
                    &terms,
                    c,
                );
                proof {
                    let ts = terms@;
                    assert(ts.last() == (fe_one(), a));
                    assert(lc_value(cells0, ts.drop_last(), c) == Some(c)) by {
                        assert(ts.drop_last().len() == 0);
                    }
                    let w = lc_value(cells0, ts, c);
                    match cells0[a.cell as int] {
                        Some(v) => {
                            assert(fe_wf(v));
                            lemma_fe_mul_one(v);
                            lemma_fe_add_comm(c, v);
                        },
                        None => {},
                    }
                    assert(w == opt_fe_add(Some(c), cells0[a.cell as int]));
                    assert(w == opt_fe_add(cells0[a.cell as int], Some(c)));
                }
                Value::Assigned(cell)
            },
            (Value::Assigned(a), Value::Assigned(b)) => {
                let mut terms: Vec<(Fe, AssignedScalar)> = Vec::new();
                terms.push((Fe::one(), a));
                terms.push((Fe::one(), b));
                let cell = self.ecc_chip.scalar_chip.sum_with_coeff_and_const(
                    &mut self.ctx,
                    &terms,
                    Fe::zero(),
                );
                proof {
                    let ts = terms@;
                    let dl = ts.drop_last();
                    assert(dl.last() == (fe_one(), a));
                    assert(ts.last() == (fe_one(), b));
                    assert(lc_value(cells0, dl.drop_last(), fe_zero()) == Some(fe_zero())) by {
                        assert(dl.drop_last().len() == 0);
                    }
                    assert(lc_value(cells0, dl, fe_zero()) == opt_fe_add(
                        Some(fe_zero()),
                        opt_fe_mul(Some(fe_one()), cells0[a.cell as int]),
                    ));
                    match (cells0[a.cell as int], cells0[b.cell as int]) {
                        (Some(va), Some(vb)) => {
                            assert(fe_wf(va) && fe_wf(vb));
                            lemma_fe_mul_one(va);
                            lemma_fe_mul_one(vb);
                            lemma_fe_add_zero(va);
                        },
                        _ => {},
                    }
                }
                Value::Assigned(cell)
            },
        };
        let r = self.scalar(output);
        proof {
            lemma_loader_wf_preserved(*old(self), *self);
        }
        r
    }

    /// Subtracts the right scalar handle from the left: folds when both are
    /// constants, otherwise emits one row that absorbs any constant operand
    /// (as the row's constant term, or negated, as the side requires).
    pub fn sub(&mut self, lhs: &Scalar, rhs: &Scalar) -> (r: Scalar)
        requires
            loader_wf(*old(self)),
            scalar_wf(*old(self), *lhs),
            scalar_wf(*old(self), *rhs),
            old(self).num_scalar < usize::MAX,
            old(self).ctx.offset < usize::MAX,
        ensures
            r.index == old(self).num_scalar,
            final(self).num_scalar == old(self).num_scalar + 1,
            scalar_value(*final(self), r) == opt_fe_sub(
                scalar_value(*old(self), *lhs),
                scalar_value(*old(self), *rhs),
            ),
            (match (lhs.value, rhs.value) {
                (Value::Constant(a), Value::Constant(b)) => r.value == Value::Constant::<
                    Fe,
                    AssignedScalar,
                >(fe_sub(a, b)) && final(self).ctx == old(self).ctx,
                _ => final(self).ctx.scalar_cells@.len() == old(self).ctx.scalar_cells@.len() + 1
                    && final(self).ctx.offset == old(self).ctx.offset + 1 && (r.value matches Value::Assigned(a)
                    && a.cell == old(self).ctx.scalar_cells@.len()),
            }),
            scalar_wf(*final(self), r),
            preserves_point_state(*final(self), *old(self)),
            preserves_misc(*final(self), *old(self)),
            loader_wf(*final(self)),
            loader_extends(*final(self), *old(self)),
    {
        let ghost cells0 = self.ctx.scalar_cells@;
        let output = match (lhs.value, rhs.value) {
            (Value::Constant(a), Value::Constant(b)) => Value::Constant(a.sub(b)),
            (Value::Constant(c), Value::Assigned(a)) => {
                let mut terms: Vec<(Fe, AssignedScalar)> = Vec::new();
                terms.push((Fe::one().neg(), a));
                let cell = self.ecc_chip.scalar_chip.sum_with_coeff_and_const(
                    &mut self.ctx,
                    &terms,
                    c,
                );
                proof {
                    let ts = terms@;
                    assert(ts.last() == (fe_neg(fe_one()), a));
                    assert(lc_value(cells0, ts.drop_last(), c) == Some(c)) by {
                        assert(ts.drop_last().len() == 0);
                    }
                    match cells0[a.cell as int] {
                        Some(v) => {
                            assert(fe_wf(v));
                            lemma_fe_mul_neg_one(v);
                            lemma_fe_add_neg(c, v);
                        },
                        None => {},
                    }
                    assert(lc_value(cells0, ts, c) == opt_fe_sub(Some(c), cells0[a.cell as int]));
                }
                Value::Assigned(cell)
            },
            (Value::Assigned(a), Value::Constant(c)) => {
                let neg_c = c.neg();
                let mut terms: Vec<(Fe, AssignedScalar)> = Vec::new();
                terms.push((Fe::one(), a));
                let cell = self.ecc_chip.scalar_chip.sum_with_coeff_and_const(
                    &mut self.ctx,
                    &terms,
                    neg_c,
                );
                proof {
                    let ts = terms@;
                    assert(ts.last() == (fe_one(), a));
                    assert(lc_value(cells0, ts.drop_last(), fe_neg(c)) == Some(fe_neg(c))) by {
                        assert(ts.drop_last().len() == 0);
                    }
                    match cells0[a.cell as int] {
                        Some(v) => {
                            assert(fe_wf(v));
                            lemma_fe_mul_one(v);
                            lemma_fe_add_comm(fe_neg(c), v);
                            lemma_fe_add_neg(v, c);
                        },
                        None => {},
                    }
                    assert(lc_value(cells0, ts, fe_neg(c)) == opt_fe_sub(
                        cells0[a.cell as int],
                        Some(c),
                    ));
                }
                Value::Assigned(cell)
            },
            (Value::Assigned(a), Value::Assigned(b)) => {
                let cell = self.ecc_chip.scalar_chip.sub(&mut self.ctx, &a, &b);
                Value::Assigned(cell)
            },
        };
        let r = self.scalar(output);
        proof {
            lemma_loader_wf_preserved(*old(self), *self);
        }
        r
    }

    /// Multiplies two scalar handles: folds when both are constants; with
    /// one constant it becomes the coefficient of a single row; two assigned
    /// values use one fused multiply-accumulate row.
    pub fn mul(&mut self, lhs: &Scalar, rhs: &Scalar) -> (r: Scalar)
        requires
            loader_wf(*old(self)),
            scalar_wf(*old(self), *lhs),
            scalar_wf(*old(self), *rhs),
            old(self).num_scalar < usize::MAX,
            old(self).ctx.offset < usize::MAX,
        ensures
            r.index == old(self).num_scalar,
            final(self).num_scalar == old(self).num_scalar + 1,
            scalar_value(*final(self), r) == opt_fe_mul(
                scalar_value(*old(self), *lhs),
                scalar_value(*old(self), *rhs),
            ),
            (match (lhs.value, rhs.value) {
                (Value::Constant(a), Value::Constant(b)) => r.value == Value::Constant::<
                    Fe,
                    AssignedScalar,
                >(fe_mul(a, b)) && final(self).ctx == old(self).ctx,
                _ => final(self).ctx.scalar_cells@.len() == old(self).ctx.scalar_cells@.len() + 1
                    && final(self).ctx.offset == old(self).ctx.offset + 1 && (r.value matches Value::Assigned(a)
                    && a.cell == old(self).ctx.scalar_cells@.len()),
            }),
            scalar_wf(*final(self), r),
            preserves_point_state(*final(self), *old(self)),
            preserves_misc(*final(self), *old(self)),
            loader_wf(*final(self)),
            loader_extends(*final(self), *old(self)),
    {
        let ghost cells0 = self.ctx.scalar_cells@;
        let output = match (lhs.value, rhs.value) {
            (Value::Constant(a), Value::Constant(b)) => Value::Constant(a.mul(b)),
            (Value::Assigned(a), Value::Constant(c)) | (Value::Constant(c), Value::Assigned(a)) => {
                let mut terms: Vec<(Fe, AssignedScalar)> = Vec::new();
                terms.push((c, a));
                let cell = self.ecc_chip.scalar_chip.sum_with_coeff_and_const(
                    &mut self.ctx,
                    &terms,
                    Fe::zero(),
                );
                proof {
                    let ts = terms@;
                    assert(ts.last() == (c, a));
                    assert(lc_value(cells0, ts.drop_last(), fe_zero()) == Some(fe_zero())) by {
                        assert(ts.drop_last().len() == 0);
                    }
                    match cells0[a.cell as int] {
                        Some(v) => {
                            assert(fe_wf(v));
                            vstd::arithmetic::div_mod::lemma_mod_bound(
                                c.n * v.n,
                                FIELD_ORDER as int,
                            );
                            assert(fe_wf(fe_mul(c, v)));
                            lemma_fe_add_zero(fe_mul(c, v));
                            lemma_fe_mul_comm(c, v);
                        },
                        None => {},
                    }
                    assert(lc_value(cells0, ts, fe_zero()) == opt_fe_mul(
                        Some(c),
                        cells0[a.cell as int],
                    ));
                    assert(lc_value(cells0, ts, fe_zero()) == opt_fe_mul(
                        cells0[a.cell as int],
                        Some(c),
                    ));
                }
                Value::Assigned(cell)
            },
            (Value::Assigned(a), Value::Assigned(b)) => {
                let mut terms: Vec<(Fe, AssignedScalar, AssignedScalar)> = Vec::new();
                terms.push((Fe::one(), a, b));
                let cell = self.ecc_chip.scalar_chip.sum_products_with_coeff_and_const(
                    &mut self.ctx,
                    &terms,
                    Fe::zero(),
                );
                proof {
                    let ts = terms@;
                    assert(ts.last() == (fe_one(), a, b));
                    assert(prod_lc_value(cells0, ts.drop_last(), fe_zero()) == Some(fe_zero()))
                        by {
                        assert(ts.drop_last().len() == 0);
                    }
                    match (cells0[a.cell as int], cells0[b.cell as int]) {
                        (Some(va), Some(vb)) => {
                            assert(fe_wf(va) && fe_wf(vb));
                            vstd::arithmetic::div_mod::lemma_mod_bound(
                                va.n * vb.n,
                                FIELD_ORDER as int,
                            );
                            assert(fe_wf(fe_mul(va, vb)));
                            lemma_fe_mul_one(fe_mul(va, vb));
                            lemma_fe_add_zero(fe_mul(va, vb));
                        },
                        _ => {},
                    }
                    assert(prod_lc_value(cells0, ts, fe_zero()) == opt_fe_mul(
                        cells0[a.cell as int],
                        cells0[b.cell as int],
                    ));
                }
                Value::Assigned(cell)
            },
        };
        let r = self.scalar(output);
        proof {
            lemma_loader_wf_preserved(*old(self), *self);
        }
        r
    }

    /// Negates a scalar handle: folds a constant, otherwise emits one
    /// dedicated negation row.
    pub fn neg(&mut self, scalar: &Scalar) -> (r: Scalar)
        requires
            loader_wf(*old(self)),
            scalar_wf(*old(self), *scalar),
            old(self).num_scalar < usize::MAX,
            old(self).ctx.offset < usize::MAX,
        ensures
            r.index == old(self).num_scalar,
            final(self).num_scalar == old(self).num_scalar + 1,
            scalar_value(*final(self), r) == opt_fe_neg(scalar_value(*old(self), *scalar)),
            (match scalar.value {
                Value::Constant(c) => r.value == Value::Constant::<Fe, AssignedScalar>(fe_neg(c))
                    && final(self).ctx == old(self).ctx,
                Value::Assigned(_) => final(self).ctx.scalar_cells@.len() == old(
                    self,
                ).ctx.scalar_cells@.len() + 1 && final(self).ctx.offset == old(self).ctx.offset + 1
                    && (r.value matches Value::Assigned(a) && a.cell == old(
                    self,
                ).ctx.scalar_cells@.len()),
            }),
            scalar_wf(*final(self), r),
            preserves_point_state(*final(self), *old(self)),
            preserves_misc(*final(self), *old(self)),
            loader_wf(*final(self)),
            loader_extends(*final(self), *old(self)),
    {
        let output = match scalar.value {
            Value::Constant(c) => Value::Constant(c.neg()),
            Value::Assigned(a) => {
                let cell = self.ecc_chip.scalar_chip.neg(&mut self.ctx, &a);
                Value::Assigned(cell)
            },
        };
        let r = self.scalar(output);
        proof {
            lemma_loader_wf_preserved(*old(self), *self);
        }
        r
    }

    /// Inverts a scalar handle: folds a nonzero constant (every nonzero
    /// element of the toy field is invertible, its order being prime);
    /// otherwise it emits one dedicated inversion row.
    pub fn invert(&mut self, scalar: &Scalar) -> (r: Scalar)
        requires
            loader_wf(*old(self)),
            scalar_wf(*old(self), *scalar),
            scalar.value matches Value::Constant(c) ==> c != fe_zero(),
            old(self).num_scalar < usize::MAX,
            old(self).ctx.offset < usize::MAX,
        ensures
            r.index == old(self).num_scalar,
            final(self).num_scalar == old(self).num_scalar + 1,
            (match scalar_value(*old(self), *scalar) {
                Some(v) => if fe_has_inv(v) {
                    scalar_value(*final(self), r) matches Some(w) && fe_wf(w) && fe_mul(v, w)
                        == fe_one()
                } else {
                    scalar_value(*final(self), r) is None
                },
                None => scalar_value(*final(self), r) is None,
            }),
            (match scalar.value {
                Value::Constant(c) => final(self).ctx == old(self).ctx && (r.value matches Value::Constant(w)
                    && fe_mul(c, w) == fe_one()),
                Value::Assigned(_) => final(self).ctx.scalar_cells@.len() == old(
                    self,
                ).ctx.scalar_cells@.len() + 1 && final(self).ctx.offset == old(self).ctx.offset + 1
                    && (r.value matches Value::Assigned(a) && a.cell == old(
                    self,
                ).ctx.scalar_cells@.len()),
            }),
            scalar_wf(*final(self), r),
            preserves_point_state(*final(self), *old(self)),
            preserves_misc(*final(self), *old(self)),
            loader_wf(*final(self)),
            loader_extends(*final(self), *old(self)),
    {
        let output = match scalar.value {
            Value::Constant(c) => {
                proof {
                    lemma_fe_nonzero_has_inv(c);
                }
                match c.invert() {
                    Some(w) => Value::Constant(w),
                    None => {
                        proof {
                            assert(false);
                        }
                        Value::Constant(c)
                    },
                }
            },
            Value::Assigned(a) => {
                let cell = self.ecc_chip.scalar_chip.invert(&mut self.ctx, &a);
                Value::Assigned(cell)
            },
        };
        let r = self.scalar(output);
        proof {
            lemma_loader_wf_preserved(*old(self), *self);
        }
        r
    }

    /// Wraps an assigned circuit point as a fresh point handle, issuing the
    /// next point identity.
    pub(crate) fn ec_point(&mut self, assigned: AssignedEcPoint) -> (r: EcPoint)
        requires
            old(self).num_ec_point < usize::MAX,
            assigned.cell < old(self).ctx.point_cells@.len(),
        ensures
            r.index == old(self).num_ec_point,
            r.assigned == assigned,
            final(self).num_ec_point == old(self).num_ec_point + 1,
            final(self).ctx == old(self).ctx,
            final(self).num_scalar == old(self).num_scalar,
            final(self).const_ec_point@ == old(self).const_ec_point@,
            final(self).row_meterings@ == old(self).row_meterings@,
            final(self).ecc_chip == old(self).ecc_chip,
            ec_point_wf(*final(self), r),
            loader_wf(*old(self)) ==> loader_wf(*final(self)),
            loader_extends(*final(self), *old(self)),
    {
        let index = self.num_ec_point;
        self.num_ec_point = self.num_ec_point + 1;
        proof {
            if loader_wf(*old(self)) {
                lemma_loader_wf_preserved(*old(self), *self);
            }
        }
        EcPoint { index, assigned }
    }

    /// Assigns a possibly-unknown point witness into a fresh circuit cell
    /// and wraps it as a fresh handle, without caching.
    pub fn assign_ec_point(&mut self, ec_point: Option<Pt>) -> (r: EcPoint)
        requires
            ec_point matches Some(p) ==> pt_wf(p),
            loader_wf(*old(self)),
            old(self).num_ec_point < usize::MAX,
            old(self).ctx.offset < usize::MAX,
        ensures
            r.index == old(self).num_ec_point,
            final(self).num_ec_point == old(self).num_ec_point + 1,
            r.assigned.cell == old(self).ctx.point_cells@.len(),
            final(self).ctx.point_cells@ == old(self).ctx.point_cells@.push(ec_point),
            final(self).ctx.offset == old(self).ctx.offset + 1,
            point_value(*final(self), r) == ec_point,
            ec_point_wf(*final(self), r),
            preserves_scalar_state(*final(self), *old(self)),
            final(self).const_ec_point@ == old(self).const_ec_point@,
            preserves_misc(*final(self), *old(self)),
            loader_wf(*final(self)),
            loader_extends(*final(self), *old(self)),
    {
        let assigned = self.ecc_chip.assign_point(&mut self.ctx, ec_point);
        let r = self.ec_point(assigned);
        proof {
            lemma_loader_wf_preserved(*old(self), *self);
        }
        r
    }

    /// Assigns a constant curve point, deduplicating by affine coordinates:
    /// the first request assigns one circuit cell and caches the handle,
    /// every later request for the same coordinates returns the cached
    /// handle, with the same identity and no circuit effect.
    pub fn assign_const_ec_point(&mut self, constant: Pt) -> (r: EcPoint)
        requires
            pt_wf(constant),
            loader_wf(*old(self)),
            old(self).num_ec_point < usize::MAX,
            old(self).ctx.offset < usize::MAX,
        ensures
            assign_const_ec_point_rel(*old(self), constant, *final(self), r),
            cache_lookup(final(self).const_ec_point@, constant.x, constant.y) == Some(r),
            point_value(*final(self), r) == Some(constant),
            ec_point_wf(*final(self), r),
            preserves_scalar_state(*final(self), *old(self)),
            final(self).row_meterings@ == old(self).row_meterings@,
            final(self).ecc_chip == old(self).ecc_chip,
            loader_wf(*final(self)),
            loader_extends(*final(self), *old(self)),
    {
        let ghost cache0 = self.const_ec_point@;
        let n = self.const_ec_point.len();
        let mut i: usize = 0;
        proof {
            assert(cache0.skip(0) =~= cache0);
        }
        while i < n
            invariant
                i <= n,
                n == cache0.len(),
                *self == *old(self),
                self.const_ec_point@ == cache0,
                loader_wf(*self),
                cache_lookup(cache0, constant.x, constant.y) == cache_lookup(
                    cache0.skip(i as int),
                    constant.x,
                    constant.y,
                ),
            decreases n - i,
        {
            let entry = self.const_ec_point[i];
            proof {
                assert(cache0.skip(i as int).first() == cache0[i as int]);
                assert(cache0.skip(i as int).drop_first() =~= cache0.skip(i + 1));
            }
            if entry.0.0.n == constant.x.n && entry.0.1.n == constant.y.n {
                proof {
                    assert(entry.0.0 == constant.x);
                    assert(entry.0.1 == constant.y);
                    assert(cache_lookup(cache0, constant.x, constant.y) == Some(entry.1));
                }
                return entry.1;
            }
            i = i + 1;
        }
        proof {
            assert(cache0.skip(n as int).len() == 0);
            assert(cache_lookup(cache0, constant.x, constant.y) is None);
        }
        let assigned = self.ecc_chip.assign_point(&mut self.ctx, Some(constant));
        let p = self.ec_point(assigned);
        proof {
            lemma_loader_wf_preserved(*old(self), *self);
        }
        let ghost mid = *self;
        self.const_ec_point.push(((constant.x, constant.y), p));
        proof {
            lemma_cache_lookup_none(cache0, constant.x, constant.y);
            lemma_cache_lookup_push(cache0, constant.x, constant.y, p);
            assert(point_value(*self, p) == Some(Pt { x: constant.x, y: constant.y }));
            assert(Pt { x: constant.x, y: constant.y } == constant);
            assert forall|a: int| 0 <= a < self.const_ec_point@.len() implies {
                let e = #[trigger] self.const_ec_point@[a];
                fe_wf(e.0.0) && fe_wf(e.0.1) && ec_point_wf(*self, e.1) && point_value(*self, e.1)
                    == Some(Pt { x: e.0.0, y: e.0.1 })
            } by {
                if a < cache0.len() {
                    assert(self.const_ec_point@[a] == cache0[a]);
                    assert(mid.const_ec_point@[a] == cache0[a]);
                }
            }
            assert(loader_wf(*self));
        }
        p
    }

    /// Loads a constant point through the point-loader capability: the
    /// cached constant-point assignment.
    pub fn ec_point_load_const(&mut self, ec_point: &Pt) -> (r: EcPoint)
        requires
            pt_wf(*ec_point),
            loader_wf(*old(self)),
            old(self).num_ec_point < usize::MAX,
            old(self).ctx.offset < usize::MAX,
        ensures
            assign_const_ec_point_rel(*old(self), *ec_point, *final(self), r),
            cache_lookup(final(self).const_ec_point@, ec_point.x, ec_point.y) == Some(r),
            point_value(*final(self), r) == Some(*ec_point),
            ec_point_wf(*final(self), r),
            preserves_scalar_state(*final(self), *old(self)),
            loader_wf(*final(self)),
            loader_extends(*final(self), *old(self)),
    {
        self.assign_const_ec_point(*ec_point)
    }

    /// Asserts equality of two scalar handles: materializes both, imposes
    /// the chip's equality constraint, and surfaces a failure as an
    /// assertion-failure error carrying the caller's annotation. It fails
    /// exactly when both values are known and differ.
    pub fn assert_eq(&mut self, annotation: String, lhs: &Scalar, rhs: &Scalar) -> (r: Result<
        (),
        Error,
    >)
        requires
            loader_wf(*old(self)),
            scalar_wf(*old(self), *lhs),
            scalar_wf(*old(self), *rhs),
            old(self).num_scalar + 2 <= usize::MAX,
            old(self).ctx.offset + 3 <= usize::MAX,
        ensures
            (match (scalar_value(*old(self), *lhs), scalar_value(*old(self), *rhs)) {
                (Some(x), Some(y)) => if x != y {
                    r matches Err(e) && e == Error::AssertionFailure(annotation)
                } else {
                    r is Ok
                },
                _ => r is Ok,
            }),
            final(self).num_scalar == old(self).num_scalar + (if lhs.value is Constant {
                1int
            } else {
                0int
            }) + (if rhs.value is Constant {
                1int
            } else {
                0int
            }),
            final(self).ctx.scalar_cells@.len() == old(self).ctx.scalar_cells@.len() + (
            if lhs.value is Constant {
                1int
            } else {
                0int
            }) + (if rhs.value is Constant {
                1int
            } else {
                0int
            }),
            final(self).ctx.offset == old(self).ctx.offset + 1 + (if lhs.value is Constant {
                1int
            } else {
                0int
            }) + (if rhs.value is Constant {
                1int
            } else {
                0int
            }),
            preserves_point_state(*final(self), *old(self)),
            final(self).row_meterings@ == old(self).row_meterings@,
            loader_wf(*final(self)),
            loader_extends(*final(self), *old(self)),
    {
        let ghost l0 = *old(self);
        let a = lhs.assigned(self);
        proof {
            lemma_scalar_preserved(l0, *self, *rhs);
        }
        let ghost l1 = *self;
        let b = rhs.assigned(self);
        proof {
            lemma_prefix_index(l1.ctx.scalar_cells@, self.ctx.scalar_cells@, a.cell as int);
        }
        let ghost l2 = *self;
        let res = self.ecc_chip.scalar_chip.assert_equal(&mut self.ctx, &a, &b);
        proof {
            lemma_loader_wf_preserved(l2, *self);
            assert(l2.ctx.scalar_cells@[a.cell as int] == scalar_value(l0, *lhs));
            assert(l2.ctx.scalar_cells@[b.cell as int] == scalar_value(l0, *rhs));
        }
        match res {
            Ok(_) => Ok(()),
            Err(_) => Err(Error::AssertionFailure(annotation)),
        }
    }

    /// Asserts equality of two point handles, surfacing a failure as an
    /// assertion-failure error carrying the caller's annotation. It fails
    /// exactly when both values are known and differ.
    pub fn ec_point_assert_eq(&mut self, annotation: String, lhs: &EcPoint, rhs: &EcPoint) -> (r:
        Result<(), Error>)
        requires
            loader_wf(*old(self)),
            ec_point_wf(*old(self), *lhs),
            ec_point_wf(*old(self), *rhs),
            old(self).ctx.offset < usize::MAX,
        ensures
            (match (point_value(*old(self), *lhs), point_value(*old(self), *rhs)) {
                (Some(p), Some(q)) => if p != q {
                    r matches Err(e) && e == Error::AssertionFailure(annotation)
                } else {
                    r is Ok
                },
                _ => r is Ok,
            }),
            preserves_scalar_state(*final(self), *old(self)),
            final(self).ctx.point_cells@ == old(self).ctx.point_cells@,
            final(self).num_ec_point == old(self).num_ec_point,
            final(self).const_ec_point@ == old(self).const_ec_point@,
            final(self).row_meterings@ == old(self).row_meterings@,
            final(self).ctx.offset == old(self).ctx.offset + 1,
            loader_wf(*final(self)),
            loader_extends(*final(self), *old(self)),
    {
        let la = lhs.assigned();
        let lb = rhs.assigned();
        let res = self.ecc_chip.assert_equal(&mut self.ctx, &la, &lb);
        proof {
            lemma_loader_wf_preserved(*old(self), *self);
        }
        match res {
            Ok(_) => Ok(()),
            Err(_) => Err(Error::AssertionFailure(annotation)),
        }
    }

    /// Opens a row-cost measurement: records the current row offset under
    /// the given label.
    pub fn start_row_metering(&mut self, identifier: String)
        ensures
            final(self).row_meterings@ == old(self).row_meterings@.push(
                (identifier, old(self).ctx.offset),
            ),
            final(self).ctx == old(self).ctx,
            final(self).num_scalar == old(self).num_scalar,
            final(self).num_ec_point == old(self).num_ec_point,
            final(self).const_ec_point@ == old(self).const_ec_point@,
            final(self).ecc_chip == old(self).ecc_chip,
            loader_wf(*old(self)) ==> loader_wf(*final(self)),
            loader_extends(*final(self), *old(self)),
    {
        let off = self.ctx.offset;
        self.row_meterings.push((identifier, off));
        proof {
            if loader_wf(*old(self)) {
                lemma_loader_wf_preserved(*old(self), *self);
            }
        }
    }

    /// Closes the last-opened measurement: overwrites its recorded start
    /// offset with the rows consumed since then.
    pub fn end_row_metering(&mut self)
        requires
            old(self).row_meterings@.len() > 0,
            old(self).row_meterings@.last().1 <= old(self).ctx.offset,
        ensures
            final(self).row_meterings@ == old(self).row_meterings@.drop_last().push(
                (
                    old(self).row_meterings@.last().0,
                    (old(self).ctx.offset - old(self).row_meterings@.last().1) as usize,
                ),
            ),
            final(self).ctx == old(self).ctx,
            final(self).num_scalar == old(self).num_scalar,
            final(self).num_ec_point == old(self).num_ec_point,
            final(self).const_ec_point@ == old(self).const_ec_point@,
            final(self).ecc_chip == old(self).ecc_chip,
            loader_wf(*old(self)) ==> loader_wf(*final(self)),
            loader_extends(*final(self), *old(self)),
    {
        let off = self.ctx.offset;
        match self.row_meterings.pop() {
            Some(entry) => {
                let (name, row) = entry;
                self.row_meterings.push((name, off - row));
            },
            None => {
                proof {
                    assert(false);
                }
            },
        }
        proof {
            if loader_wf(*old(self)) {
                lemma_loader_wf_preserved(*old(self), *self);
            }
        }
    }

    /// The cost-metering hook of the generic loader capability.
    pub fn start_cost_metering(&mut self, identifier: String)
        ensures
            final(self).row_meterings@ == old(self).row_meterings@.push(
                (identifier, old(self).ctx.offset),
            ),
            final(self).ctx == old(self).ctx,
            final(self).num_scalar == old(self).num_scalar,
            final(self).num_ec_point == old(self).num_ec_point,
            final(self).const_ec_point@ == old(self).const_ec_point@,
            loader_wf(*old(self)) ==> loader_wf(*final(self)),
            loader_extends(*final(self), *old(self)),
    {
        self.start_row_metering(identifier)
    }

    /// The closing cost-metering hook of the generic loader capability.
    pub fn end_cost_metering(&mut self)
        requires
            old(self).row_meterings@.len() > 0,
            old(self).row_meterings@.last().1 <= old(self).ctx.offset,
        ensures
            final(self).row_meterings@ == old(self).row_meterings@.drop_last().push(
                (
                    old(self).row_meterings@.last().0,
                    (old(self).ctx.offset - old(self).row_meterings@.last().1) as usize,
                ),
            ),
            final(self).ctx == old(self).ctx,
            final(self).num_scalar == old(self).num_scalar,
            final(self).num_ec_point == old(self).num_ec_point,
            final(self).const_ec_point@ == old(self).const_ec_point@,
            loader_wf(*old(self)) ==> loader_wf(*final(self)),
            loader_extends(*final(self), *old(self)),
    {
        self.end_row_metering()
    }

    /// The row-cost log: one (label, rows) pair per closed measurement.
    pub fn row_meterings(&self) -> (r: &Vec<(String, usize)>)
        ensures
            r@ == self.row_meterings@,
    {
        &self.row_meterings
    }

    /// The weighted-sum capability: materializes every scalar and emits one
    /// linear-combination row holding `constant + sum of coeff * scalar`.
    pub fn sum_with_coeff_and_const(&mut self, values: &Vec<(Fe, Scalar)>, constant: Fe) -> (r:
        Scalar)
        requires
            loader_wf(*old(self)),
            fe_wf(constant),
            forall|i: int| 0 <= i < values@.len() ==> fe_wf((#[trigger] values@[i]).0)
                && scalar_wf(*old(self), values@[i].1),
            old(self).num_scalar + values@.len() + 1 <= usize::MAX,
            old(self).ctx.offset + values@.len() + 1 <= usize::MAX,
        ensures
            r.index + 1 == final(self).num_scalar,
            final(self).num_scalar == old(self).num_scalar + const_operand_count(values@) + 1,
            final(self).ctx.scalar_cells@.len() == old(self).ctx.scalar_cells@.len()
                + const_operand_count(values@) + 1,
            final(self).ctx.offset == old(self).ctx.offset + const_operand_count(values@) + 1,
            r.value is Assigned,
            scalar_value(*final(self), r) == weighted_sum_value(*old(self), values@, constant),
            scalar_wf(*final(self), r),
            preserves_point_state(*final(self), *old(self)),
            preserves_misc(*final(self), *old(self)),
            loader_wf(*final(self)),
            loader_extends(*final(self), *old(self)),
    {
        let ghost l0 = *old(self);
        let mut terms: Vec<(Fe, AssignedScalar)> = Vec::new();
        let mut i: usize = 0;
        proof {
            assert(values@.take(0).len() == 0);
            assert(terms@.len() == 0);
        }
        while i < values.len()
            invariant
                i <= values@.len(),
                terms@.len() == i,
                l0 == *old(self),
                loader_wf(*self),
                loader_extends(*self, l0),
                preserves_point_state(*self, l0),
                preserves_misc(*self, l0),
                fe_wf(constant),
                forall|k: int| 0 <= k < values@.len() ==> fe_wf((#[trigger] values@[k]).0)
                    && scalar_wf(l0, values@[k].1),
                l0.num_scalar + values@.len() + 1 <= usize::MAX,
                l0.ctx.offset + values@.len() + 1 <= usize::MAX,
                self.num_scalar == l0.num_scalar + const_operand_count(values@.take(i as int)),
                self.ctx.offset == l0.ctx.offset + const_operand_count(values@.take(i as int)),
                self.ctx.scalar_cells@.len() == l0.ctx.scalar_cells@.len() + const_operand_count(
                    values@.take(i as int),
                ),
                forall|k: int| 0 <= k < terms@.len() ==> (#[trigger] terms@[k]).0 == values@[k].0
                    && terms@[k].1.cell < self.ctx.scalar_cells@.len(),
                lc_value(self.ctx.scalar_cells@, terms@, constant) == weighted_sum_value(
                    l0,
                    values@.take(i as int),
                    constant,
                ),
            decreases values@.len() - i,
        {
            let (coeff, s) = values[i];
            let ghost cells1 = self.ctx.scalar_cells@;
            let ghost terms_before = terms@;
            let ghost lmid = *self;
            proof {
                lemma_const_operand_count_le(values@.take(i as int));
            }
            let a = s.assigned(self);
            terms.push((coeff, a));
            proof {
                let cells2 = self.ctx.scalar_cells@;
                assert(cells1.is_prefix_of(cells2)) by {
                    assert(cells2.take(cells1.len() as int) =~= cells1);
                }
                lemma_lc_value_extends(cells1, cells2, terms_before, constant);
                lemma_scalar_preserved(l0, lmid, s);
                assert(cells2[a.cell as int] == scalar_value(l0, s));
                assert(terms@.drop_last() =~= terms_before);
                assert(terms@.last() == (coeff, a));
                assert(values@.take(i + 1).drop_last() =~= values@.take(i as int));
                assert(values@.take(i + 1).last() == values@[i as int]);
                assert(const_operand_count(values@.take(i + 1)) == const_operand_count(
                    values@.take(i as int),
                ) + (if s.value is Constant {
                    1nat
                } else {
                    0nat
                }));
            }
            i = i + 1;
        }
        proof {
            assert(values@.take(values@.len() as int) =~= values@);
            lemma_const_operand_count_le(values@);
        }
        let cell = self.ecc_chip.scalar_chip.sum_with_coeff_and_const(
            &mut self.ctx,
            &terms,
            constant,
        );
        let r = self.scalar(Value::Assigned(cell));
        proof {
            lemma_loader_wf_preserved(l0, *self);
        }
        r
    }

    /// The weighted-sum-of-products capability: materializes every scalar
    /// pair and emits one fused multiply-accumulate row holding
    /// `constant + sum of coeff * lhs * rhs`.
    pub fn sum_products_with_coeff_and_const(
        &mut self,
        values: &Vec<(Fe, Scalar, Scalar)>,
        constant: Fe,
    ) -> (r: Scalar)
        requires
            loader_wf(*old(self)),
            fe_wf(constant),
            forall|i: int| 0 <= i < values@.len() ==> fe_wf((#[trigger] values@[i]).0)
                && scalar_wf(*old(self), values@[i].1) && scalar_wf(*old(self), values@[i].2),
            old(self).num_scalar + 2 * values@.len() + 1 <= usize::MAX,
            old(self).ctx.offset + 2 * values@.len() + 1 <= usize::MAX,
        ensures
            r.index + 1 == final(self).num_scalar,
            final(self).num_scalar == old(self).num_scalar + const_operand_count_prod(values@)
                + 1,
            final(self).ctx.scalar_cells@.len() == old(self).ctx.scalar_cells@.len()
                + const_operand_count_prod(values@) + 1,
            final(self).ctx.offset == old(self).ctx.offset + const_operand_count_prod(values@)
                + 1,
            r.value is Assigned,
            scalar_value(*final(self), r) == weighted_prod_sum_value(
                *old(self),
                values@,
                constant,
            ),
            scalar_wf(*final(self), r),
            preserves_point_state(*final(self), *old(self)),
            preserves_misc(*final(self), *old(self)),
            loader_wf(*final(self)),
            loader_extends(*final(self), *old(self)),
    {
        let ghost l0 = *old(self);
        let mut terms: Vec<(Fe, AssignedScalar, AssignedScalar)> = Vec::new();
        let mut i: usize = 0;
        proof {
            assert(values@.take(0).len() == 0);
            assert(terms@.len() == 0);
        }
        while i < values.len()
            invariant
                i <= values@.len(),
                terms@.len() == i,
                l0 == *old(self),
                loader_wf(*self),
                loader_extends(*self, l0),
                preserves_point_state(*self, l0),
                preserves_misc(*self, l0),
                fe_wf(constant),
                forall|k: int| 0 <= k < values@.len() ==> fe_wf((#[trigger] values@[k]).0)
                    && scalar_wf(l0, values@[k].1) && scalar_wf(l0, values@[k].2),
                l0.num_scalar + 2 * values@.len() + 1 <= usize::MAX,
                l0.ctx.offset + 2 * values@.len() + 1 <= usize::MAX,
                self.num_scalar == l0.num_scalar + const_operand_count_prod(
                    values@.take(i as int),
                ),
                self.ctx.offset == l0.ctx.offset + const_operand_count_prod(
                    values@.take(i as int),
                ),
                self.ctx.scalar_cells@.len() == l0.ctx.scalar_cells@.len()
                    + const_operand_count_prod(values@.take(i as int)),
                forall|k: int| 0 <= k < terms@.len() ==> (#[trigger] terms@[k]).0 == values@[k].0
                    && terms@[k].1.cell < self.ctx.scalar_cells@.len() && terms@[k].2.cell
                    < self.ctx.scalar_cells@.len(),
                prod_lc_value(self.ctx.scalar_cells@, terms@, constant) == weighted_prod_sum_value(
                    l0,
                    values@.take(i as int),
                    constant,
                ),
            decreases values@.len() - i,
        {
            let (coeff, s1, s2) = values[i];
            let ghost cells1 = self.ctx.scalar_cells@;
            let ghost terms_before = terms@;
            let ghost lmid1 = *self;
            proof {
                lemma_const_operand_count_prod_le(values@.take(i as int));
            }
            let a1 = s1.assigned(self);
            let ghost cells_mid = self.ctx.scalar_cells@;
            let ghost lmid2 = *self;
            let a2 = s2.assigned(self);
            terms.push((coeff, a1, a2));
            proof {
                let cells2 = self.ctx.scalar_cells@;
                assert(cells_mid.is_prefix_of(cells2)) by {
                    assert(cells2.take(cells_mid.len() as int) =~= cells_mid);
                }
                assert(cells1.is_prefix_of(cells_mid)) by {
                    assert(cells_mid.take(cells1.len() as int) =~= cells1);
                }
                assert(cells1.is_prefix_of(cells2)) by {
                    assert(cells2.take(cells1.len() as int) =~= cells1);
                }
                lemma_lc_value_extends_prod(cells1, cells2, terms_before, constant);
                lemma_scalar_preserved(l0, lmid1, s1);
                assert(cells_mid[a1.cell as int] == scalar_value(l0, s1));
                lemma_prefix_index(cells_mid, cells2, a1.cell as int);
                assert(cells2[a1.cell as int] == scalar_value(l0, s1));
                lemma_scalar_preserved(l0, lmid2, s2);
                assert(cells2[a2.cell as int] == scalar_value(l0, s2));
                assert(terms@.drop_last() =~= terms_before);
                assert(terms@.last() == (coeff, a1, a2));
                assert(values@.take(i + 1).drop_last() =~= values@.take(i as int));
                assert(values@.take(i + 1).last() == values@[i as int]);
                assert(const_operand_count_prod(values@.take(i + 1)) == const_operand_count_prod(
                    values@.take(i as int),
                ) + (if s1.value is Constant {
                    1nat
                } else {
                    0nat
                }) + (if s2.value is Constant {
                    1nat
                } else {
                    0nat
                }));
            }
            i = i + 1;
        }
        proof {
            assert(values@.take(values@.len() as int) =~= values@);
            lemma_const_operand_count_prod_le(values@);
        }
        let cell = self.ecc_chip.scalar_chip.sum_products_with_coeff_and_const(
            &mut self.ctx,
            &terms,
            constant,
        );
        let r = self.scalar(Value::Assigned(cell));
        proof {
            lemma_loader_wf_preserved(l0, *self);
        }
        r
    }
}

impl Scalar {
    /// The assigned circuit cell of this scalar, materializing a constant
    /// into the circuit on demand; materialization issues a fresh scalar
    /// identity but leaves this handle's own identity and value alone.
    pub fn assigned(&self, loader: &mut Halo2Loader) -> (r: AssignedScalar)
        requires
            loader_wf(*old(loader)),
            scalar_wf(*old(loader), *self),
            old(loader).num_scalar < usize::MAX,
            old(loader).ctx.offset < usize::MAX,
        ensures
            r.cell < final(loader).ctx.scalar_cells@.len(),
            final(loader).ctx.scalar_cells@[r.cell as int] == scalar_value(*old(loader), *self),
            self.value matches Value::Assigned(a) ==> r == a && *final(loader) == *old(loader),
            self.value matches Value::Constant(c) ==> (final(loader).ctx.scalar_cells@
                == old(loader).ctx.scalar_cells@.push(Some(c))
                && r.cell == old(loader).ctx.scalar_cells@.len()
                && final(loader).ctx.offset == old(loader).ctx.offset + 1
                && final(loader).num_scalar == old(loader).num_scalar + 1),
            preserves_point_state(*final(loader), *old(loader)),
            preserves_misc(*final(loader), *old(loader)),
            loader_wf(*final(loader)),
            loader_extends(*final(loader), *old(loader)),
    {
        match self.value {
            Value::Assigned(a) => a,
            Value::Constant(c) => {
                let s = loader.assign_const_scalar(c);
                match s.value {
                    Value::Assigned(a) => a,
                    Value::Constant(_) => {
                        proof {
                            assert(false);
                        }
                        AssignedScalar { cell: 0 }
                    },
                }
            },
        }
    }
}

/// How many operands of a weighted sum are constants: each one is promoted
/// into a fresh circuit cell, with a fresh identity, before the sum row.
pub open spec fn const_operand_count(values: Seq<(Fe, Scalar)>) -> nat
    decreases values.len(),
{
    if values.len() == 0 {
        0
    } else {
        const_operand_count(values.drop_last()) + (if values.last().1.value is Constant {
            1nat
        } else {
            0nat
        })
    }
}

/// At most one promotion happens per operand.
pub proof fn lemma_const_operand_count_le(values: Seq<(Fe, Scalar)>)
    ensures
        const_operand_count(values) <= values.len(),
    decreases values.len(),
{
    if values.len() > 0 {
        lemma_const_operand_count_le(values.drop_last());
    }
}

/// The constant-operand count of a weighted sum of products: each term has
/// two scalar operands, either of which may need promotion.
pub open spec fn const_operand_count_prod(values: Seq<(Fe, Scalar, Scalar)>) -> nat
    decreases values.len(),
{
    if values.len() == 0 {
        0
    } else {
        const_operand_count_prod(values.drop_last()) + (if values.last().1.value is Constant {
            1nat
        } else {
            0nat
        }) + (if values.last().2.value is Constant {
            1nat
        } else {
            0nat
        })
    }
}

/// At most two promotions happen per product term.
pub proof fn lemma_const_operand_count_prod_le(values: Seq<(Fe, Scalar, Scalar)>)
    ensures
        const_operand_count_prod(values) <= 2 * values.len(),
    decreases values.len(),
{
    if values.len() > 0 {
        lemma_const_operand_count_prod_le(values.drop_last());
    }
}

/// The field value of a weighted sum of scalar handles with a constant
/// term: `constant + sum of coeff * scalar`.
pub open spec fn weighted_sum_value(
    l: Halo2Loader,
    values: Seq<(Fe, Scalar)>,
    constant: Fe,
) -> Option<Fe>
    decreases values.len(),
{
    if values.len() == 0 {
        Some(constant)
    } else {
        opt_fe_add(
            weighted_sum_value(l, values.drop_last(), constant),
            opt_fe_mul(Some(values.last().0), scalar_value(l, values.last().1)),
        )
    }
}

/// The field value of a weighted sum of products of scalar handles with a
/// constant term: `constant + sum of coeff * lhs * rhs`.
pub open spec fn weighted_prod_sum_value(
    l: Halo2Loader,
    values: Seq<(Fe, Scalar, Scalar)>,
    constant: Fe,
) -> Option<Fe>
    decreases values.len(),
{
    if values.len() == 0 {
        Some(constant)
    } else {
        opt_fe_add(
            weighted_prod_sum_value(l, values.drop_last(), constant),
            opt_fe_mul(
                Some(values.last().0),
                opt_fe_mul(
                    scalar_value(l, values.last().1),
                    scalar_value(l, values.last().2),
                ),
            ),
        )
    }
}

/// Whether a scalar handle is exactly the foldable constant one, the case
/// the multi-scalar multiplication leaves unscaled.
pub open spec fn is_one_scalar(s: Scalar) -> bool {
    s.value matches Value::Constant(c) && c == fe_one()
}

/// Every pair holds handles well-formed for the loader.
pub open spec fn pairs_wf(l: Halo2Loader, pairs: Seq<(Scalar, EcPoint)>) -> bool {
    forall|i: int| 0 <= i < pairs.len() ==> scalar_wf(l, (#[trigger] pairs[i]).0) && ec_point_wf(
        l,
        pairs[i].1,
    )
}

/// How many pairs the multi-scalar multiplication materializes lazily: those
/// whose scalar is a constant other than one. Each such pair promotes its
/// constant into the circuit and so issues exactly one fresh scalar identity.
pub open spec fn promoted_count(pairs: Seq<(Scalar, EcPoint)>) -> nat
    decreases pairs.len(),
{
    if pairs.len() == 0 {
        0
    } else {
        promoted_count(pairs.drop_last()) + (
        if !is_one_scalar(pairs.last().0) && pairs.last().0.value is Constant {
            1nat
        } else {
            0nat
        })
    }
}

/// At most one promotion happens per pair.
pub proof fn lemma_promoted_count_le(pairs: Seq<(Scalar, EcPoint)>)
    ensures
        promoted_count(pairs) <= pairs.len(),
    decreases pairs.len(),
{
    if pairs.len() > 0 {
        lemma_promoted_count_le(pairs.drop_last());
    }
}

/// How many pairs go to the scaled bucket of the multi-scalar
/// multiplication: those whose scalar is not the constant one.
pub open spec fn scaled_count(pairs: Seq<(Scalar, EcPoint)>) -> nat
    decreases pairs.len(),
{
    if pairs.len() == 0 {
        0
    } else {
        scaled_count(pairs.drop_last()) + (if is_one_scalar(pairs.last().0) {
            0nat
        } else {
            1nat
        })
    }
}

/// The scaled bucket holds at most every pair.
pub proof fn lemma_scaled_count_le(pairs: Seq<(Scalar, EcPoint)>)
    ensures
        scaled_count(pairs) <= pairs.len(),
    decreases pairs.len(),
{
    if pairs.len() > 0 {
        lemma_scaled_count_le(pairs.drop_last());
    }
}

/// How many point cells the multi-scalar multiplication itself assigns: one
/// fused batch row exactly when the scaled bucket is nonempty, one pairwise
/// addition per point left beyond the first operand, and one normalization.
pub open spec fn msm_assigned_points(pairs: Seq<(Scalar, EcPoint)>) -> nat {
    if scaled_count(pairs) > 0 {
        (pairs.len() - scaled_count(pairs) + 2) as nat
    } else {
        pairs.len()
    }
}

/// The group value of a weighted sum of pairs: each point scaled by its
/// scalar, summed; unknown as soon as one operand is.
pub open spec fn msm_value(l: Halo2Loader, pairs: Seq<(Scalar, EcPoint)>) -> Option<Pt>
    decreases pairs.len(),
{
    if pairs.len() == 0 {
        Some(pt_zero())
    } else {
        opt_pt_add(
            msm_value(l, pairs.drop_last()),
            opt_pt_scale(scalar_value(l, pairs.last().0), point_value(l, pairs.last().1)),
        )
    }
}

impl EcPoint {
    /// The assigned circuit point behind this handle.
    pub fn assigned(&self) -> (r: AssignedEcPoint)
        ensures
            r == self.assigned,
    {
        self.assigned
    }

    /// The weighted sum of the given (scalar, point) pairs as one fresh
    /// point handle. Pairs whose scalar is the literal constant one keep
    /// their point unscaled; all other pairs are materialized and handed to
    /// the chip's fused multi-scalar multiplication in a single batch; the
    /// unscaled points are then folded in by pairwise addition and the
    /// result is normalized. The pair list must not be empty.
    #[verifier::rlimit(60)]
    pub fn multi_scalar_multiplication(loader: &mut Halo2Loader, pairs: &Vec<(Scalar, EcPoint)>) -> (r:
        EcPoint)
        requires
            pairs@.len() > 0,
            loader_wf(*old(loader)),
            pairs_wf(*old(loader), pairs@),
            old(loader).num_scalar + pairs@.len() <= usize::MAX,
            old(loader).num_ec_point < usize::MAX,
            old(loader).ctx.offset + 2 * pairs@.len() + 2 <= usize::MAX,
        ensures
            r.index == old(loader).num_ec_point,
            final(loader).num_ec_point == old(loader).num_ec_point + 1,
            point_value(*final(loader), r) == msm_value(*old(loader), pairs@),
            ec_point_wf(*final(loader), r),
            final(loader).const_ec_point@ == old(loader).const_ec_point@,
            final(loader).row_meterings@ == old(loader).row_meterings@,
            final(loader).num_scalar == old(loader).num_scalar + promoted_count(pairs@),
            final(loader).ctx.scalar_cells@.len() == old(loader).ctx.scalar_cells@.len()
                + promoted_count(pairs@),
            final(loader).ctx.point_cells@.len() == old(loader).ctx.point_cells@.len()
                + msm_assigned_points(pairs@),
            final(loader).ctx.offset == old(loader).ctx.offset + promoted_count(pairs@)
                + msm_assigned_points(pairs@),
            loader_wf(*final(loader)),
            loader_extends(*final(loader), *old(loader)),
    {
        let ghost l0 = *old(loader);
        let mut non_scaled: Vec<AssignedEcPoint> = Vec::new();
        let mut scaled: Vec<(AssignedEcPoint, AssignedScalar)> = Vec::new();
        let mut i: usize = 0;
        proof {
            assert(pairs@.take(0).len() == 0);
        }
        while i < pairs.len()
            invariant
                i <= pairs@.len(),
                pairs@.len() > 0,
                l0 == *old(loader),
                loader_wf(*loader),
                loader_extends(*loader, l0),
                pairs_wf(l0, pairs@),
                l0.num_scalar + pairs@.len() <= usize::MAX,
                l0.ctx.offset + 2 * pairs@.len() + 2 <= usize::MAX,
                loader.num_scalar == l0.num_scalar + promoted_count(pairs@.take(i as int)),
                loader.ctx.offset == l0.ctx.offset + promoted_count(pairs@.take(i as int)),
                loader.ctx.scalar_cells@.len() == l0.ctx.scalar_cells@.len() + promoted_count(
                    pairs@.take(i as int),
                ),
                loader.num_ec_point == l0.num_ec_point,
                loader.const_ec_point@ == l0.const_ec_point@,
                loader.row_meterings@ == l0.row_meterings@,
                loader.ctx.point_cells@ == l0.ctx.point_cells@,
                scaled@.len() + non_scaled@.len() == i,
                scaled@.len() == scaled_count(pairs@.take(i as int)),
                forall|k: int| 0 <= k < scaled@.len() ==> (#[trigger] scaled@[k]).0.cell
                    < loader.ctx.point_cells@.len() && scaled@[k].1.cell
                    < loader.ctx.scalar_cells@.len(),
                forall|k: int| 0 <= k < non_scaled@.len() ==> (#[trigger] non_scaled@[k]).cell
                    < loader.ctx.point_cells@.len(),
                opt_pt_add(
                    msm_cells_value(loader.ctx.scalar_cells@, loader.ctx.point_cells@, scaled@),
                    points_sum_value(loader.ctx.point_cells@, non_scaled@),
                ) == msm_value(l0, pairs@.take(i as int)),
            decreases pairs@.len() - i,
        {
            let (s, p) = pairs[i];
            let ghost scells1 = loader.ctx.scalar_cells@;
            let ghost pcells = loader.ctx.point_cells@;
            let ghost a_before = msm_cells_value(scells1, pcells, scaled@);
            let ghost b_before = points_sum_value(pcells, non_scaled@);
            let ghost tv = opt_pt_scale(scalar_value(l0, s), point_value(l0, p));
            proof {
                lemma_msm_cells_value_wf(scells1, pcells, scaled@);
                lemma_points_sum_value_wf(pcells, non_scaled@);
                lemma_promoted_count_le(pairs@.take(i as int));
                assert(pairs@.take(i + 1).drop_last() =~= pairs@.take(i as int));
                assert(pairs@.take(i + 1).last() == pairs@[i as int]);
                assert(promoted_count(pairs@.take(i + 1)) == promoted_count(pairs@.take(i as int))
                    + (if !is_one_scalar(s) && s.value is Constant {
                    1nat
                } else {
                    0nat
                }));
                assert(scaled_count(pairs@.take(i + 1)) == scaled_count(pairs@.take(i as int)) + (
                if is_one_scalar(s) {
                    0nat
                } else {
                    1nat
                }));
                assert(match pcells[p.assigned.cell as int] {
                    Some(q) => pt_wf(q),
                    None => true,
                });
            }
            let is_one = match s.value {
                Value::Constant(c) => c.n == 1,
                _ => false,
            };
            proof {
                assert(is_one == is_one_scalar(s));
            }
            let ghost ns_before = non_scaled@;
            let ghost sc_before = scaled@;
            if is_one {
                non_scaled.push(p.assigned());
                proof {
                    let ghost c = s.value->Constant_0;
                    assert(c == fe_one());
                    assert(tv == opt_pt_scale(Some(fe_one()), pcells[p.assigned.cell as int]));
                    lemma_opt_pt_scale_one(pcells[p.assigned.cell as int]);
                    assert(tv == pcells[p.assigned.cell as int]);
                    assert(non_scaled@.drop_last() =~= ns_before);
                    assert(points_sum_value(pcells, non_scaled@) == opt_pt_add(b_before, tv));
                    lemma_opt_pt_add_assoc(a_before, b_before, tv);
                }
            } else {
                let pa = p.assigned();
                let ghost lmid = *loader;
                let sa = s.assigned(loader);
                scaled.push((pa, sa));
                proof {
                    let scells2 = loader.ctx.scalar_cells@;
                    assert(scells1.is_prefix_of(scells2)) by {
                        assert(scells2.take(scells1.len() as int) =~= scells1);
                    }
                    lemma_msm_cells_value_extends(scells1, scells2, pcells, pcells, sc_before);
                    lemma_scalar_preserved(l0, lmid, s);
                    assert(scells2[sa.cell as int] == scalar_value(l0, s));
                    assert(scaled@.drop_last() =~= sc_before);
                    assert(scaled@.last() == (pa, sa));
                    assert(msm_cells_value(scells2, pcells, scaled@) == opt_pt_add(a_before, tv));
                    lemma_points_sum_value_wf(pcells, non_scaled@);
                    match tv {
                        Some(q) => {
                            assert(opt_pt_wf(tv)) by {
                                match (scalar_value(l0, s), point_value(l0, p)) {
                                    (Some(sv), Some(pv)) => {
                                        crate::group::lemma_pt_ops_wf(pv, pv, sv);
                                    },
                                    _ => {},
                                }
                            }
                        },
                        None => {},
                    }
                    lemma_opt_pt_add_assoc(a_before, tv, b_before);
                    lemma_opt_pt_add_comm(tv, b_before);
                    lemma_opt_pt_add_assoc(a_before, b_before, tv);
                }
            }
            i = i + 1;
        }
        proof {
            assert(pairs@.take(pairs@.len() as int) =~= pairs@);
        }
        let ghost lp = *loader;
        let ghost a_val = msm_cells_value(lp.ctx.scalar_cells@, lp.ctx.point_cells@, scaled@);
        let ghost goal = msm_value(l0, pairs@);
        proof {
            lemma_msm_cells_value_wf(lp.ctx.scalar_cells@, lp.ctx.point_cells@, scaled@);
            lemma_promoted_count_le(pairs@);
        }
        let mut acc: AssignedEcPoint;
        let mut j: usize;
        if scaled.len() > 0 {
            acc = loader.ecc_chip.multi_scalar_multiplication(&mut loader.ctx, &scaled);
            j = 0;
            proof {
                assert(scaled_count(pairs@) > 0);
                let pc2 = loader.ctx.point_cells@;
                assert(lp.ctx.point_cells@.is_prefix_of(pc2)) by {
                    assert(pc2.take(lp.ctx.point_cells@.len() as int) =~= lp.ctx.point_cells@);
                }
                lemma_points_sum_value_extends(lp.ctx.point_cells@, pc2, non_scaled@);
                assert(loader.ctx.point_cells@[acc.cell as int] == a_val);
                assert(points_sum_value(pc2, non_scaled@.take(0)) == Some(pt_zero())) by {
                    assert(non_scaled@.take(0).len() == 0);
                }
                lemma_opt_pt_add_comm(a_val, Some(pt_zero()));
                lemma_opt_pt_add_zero(a_val);
            }
        } else {
            proof {
                assert(non_scaled@.len() == i);
                assert(non_scaled@.len() > 0);
            }
            acc = non_scaled[0];
            j = 1;
            proof {
                assert(a_val == Some(pt_zero())) by {
                    assert(scaled@.len() == 0);
                }
                let pc2 = loader.ctx.point_cells@;
                let p0v = pc2[non_scaled@[0].cell as int];
                assert(match p0v {
                    Some(q) => pt_wf(q),
                    None => true,
                });
                assert(points_sum_value(pc2, non_scaled@.take(1)) == opt_pt_add(
                    points_sum_value(pc2, non_scaled@.take(1).drop_last()),
                    p0v,
                )) by {
                    assert(non_scaled@.take(1).last() == non_scaled@[0]);
                }
                assert(points_sum_value(pc2, non_scaled@.take(1).drop_last()) == Some(pt_zero()))
                    by {
                    assert(non_scaled@.take(1).drop_last().len() == 0);
                }
                lemma_opt_pt_add_zero(p0v);
                assert(points_sum_value(pc2, non_scaled@.take(1)) == p0v);
                lemma_opt_pt_add_zero(p0v);
            }
        }
        while j < non_scaled.len()
            invariant
                j <= non_scaled@.len(),
                l0 == *old(loader),
                loader_wf(*loader),
                loader_extends(*loader, l0),
                loader.num_ec_point == l0.num_ec_point,
                loader.num_ec_point < usize::MAX,
                loader.const_ec_point@ == l0.const_ec_point@,
                loader.row_meterings@ == l0.row_meterings@,
                loader.num_scalar == l0.num_scalar + promoted_count(pairs@),
                loader.ctx.scalar_cells@.len() == l0.ctx.scalar_cells@.len() + promoted_count(
                    pairs@,
                ),
                pairs@.len() > 0,
                scaled@.len() == scaled_count(pairs@),
                scaled@.len() + non_scaled@.len() == pairs@.len(),
                j >= 1 || scaled_count(pairs@) > 0,
                loader.ctx.offset == l0.ctx.offset + promoted_count(pairs@) + (
                if scaled_count(pairs@) > 0 {
                    j + 1
                } else {
                    j - 1
                }),
                loader.ctx.point_cells@.len() == l0.ctx.point_cells@.len() + (
                if scaled_count(pairs@) > 0 {
                    j + 1
                } else {
                    j - 1
                }),
                l0.ctx.offset + 2 * pairs@.len() + 2 <= usize::MAX,
                forall|k: int| 0 <= k < non_scaled@.len() ==> (#[trigger] non_scaled@[k]).cell
                    < loader.ctx.point_cells@.len(),
                acc.cell < loader.ctx.point_cells@.len(),
                opt_pt_wf(a_val),
                loader.ctx.point_cells@[acc.cell as int] == opt_pt_add(
                    a_val,
                    points_sum_value(loader.ctx.point_cells@, non_scaled@.take(j as int)),
                ),
                opt_pt_add(a_val, points_sum_value(loader.ctx.point_cells@, non_scaled@)) == goal,
            decreases non_scaled@.len() - j,
        {
            let nsj = non_scaled[j];
            let ghost pc_before = loader.ctx.point_cells@;
            let ghost sum_j = points_sum_value(pc_before, non_scaled@.take(j as int));
            let ghost pjv = pc_before[nsj.cell as int];
            proof {
                lemma_points_sum_value_wf(pc_before, non_scaled@.take(j as int));
                lemma_promoted_count_le(pairs@);
                assert(forall|k: int| 0 <= k < non_scaled@.take(j as int).len()
                    ==> (#[trigger] non_scaled@.take(j as int)[k]).cell < pc_before.len());
            }
            acc = loader.ecc_chip.add(&mut loader.ctx, &acc, &nsj);
            proof {
                let pc_after = loader.ctx.point_cells@;
                assert(pc_before.is_prefix_of(pc_after)) by {
                    assert(pc_after.take(pc_before.len() as int) =~= pc_before);
                }
                lemma_points_sum_value_extends(pc_before, pc_after, non_scaled@);
                lemma_points_sum_value_extends(pc_before, pc_after, non_scaled@.take(j as int));
                lemma_points_sum_value_extends(pc_before, pc_after, non_scaled@.take(j + 1));
                assert(match pjv {
                    Some(q) => pt_wf(q),
                    None => true,
                });
                assert(non_scaled@.take(j + 1).drop_last() =~= non_scaled@.take(j as int));
                assert(non_scaled@.take(j + 1).last() == non_scaled@[j as int]);
                assert(points_sum_value(pc_before, non_scaled@.take(j + 1)) == opt_pt_add(
                    sum_j,
                    pjv,
                ));
                lemma_opt_pt_add_assoc(a_val, sum_j, pjv);
            }
            j = j + 1;
        }
        proof {
            assert(non_scaled@.take(non_scaled@.len() as int) =~= non_scaled@);
            lemma_promoted_count_le(pairs@);
        }
        let normalized = loader.ecc_chip.normalize(&mut loader.ctx, &acc);
        let r = loader.ec_point(normalized);
        proof {
            lemma_loader_wf_preserved(*old(loader), *loader);
        }
        r
    }
}

/// The sum of the point values of the pairs whose scalar is the constant
/// one: the unscaled share of a weighted sum.
pub open spec fn msm_value_ones(l: Halo2Loader, pairs: Seq<(Scalar, EcPoint)>) -> Option<Pt>
    decreases pairs.len(),
{
    if pairs.len() == 0 {
        Some(pt_zero())
    } else if is_one_scalar(pairs.last().0) {
        opt_pt_add(msm_value_ones(l, pairs.drop_last()), point_value(l, pairs.last().1))
    } else {
        msm_value_ones(l, pairs.drop_last())
    }
}

/// The weighted sum over the pairs whose scalar is not the constant one:
/// the scaled share of a weighted sum.
pub open spec fn msm_value_non_ones(l: Halo2Loader, pairs: Seq<(Scalar, EcPoint)>) -> Option<Pt>
    decreases pairs.len(),
{
    if pairs.len() == 0 {
        Some(pt_zero())
    } else if is_one_scalar(pairs.last().0) {
        msm_value_non_ones(l, pairs.drop_last())
    } else {
        opt_pt_add(
            msm_value_non_ones(l, pairs.drop_last()),
            opt_pt_scale(scalar_value(l, pairs.last().0), point_value(l, pairs.last().1)),
        )
    }
}

/// Identity uniqueness for scalars: a handle the loader has already issued
/// never shares its identity with the handle issued next, since issued
/// indices lie below the counter and each construction takes the counter's
/// value and advances it by one.
pub proof fn lemma_scalar_identity_unique(l: Halo2Loader, earlier: Scalar, fresh: Scalar)
    requires
        scalar_wf(l, earlier),
        fresh.index == l.num_scalar,
    ensures
        earlier.index != fresh.index,
{
}

/// Identity uniqueness for points, as for scalars.
pub proof fn lemma_ec_point_identity_unique(l: Halo2Loader, earlier: EcPoint, fresh: EcPoint)
    requires
        ec_point_wf(l, earlier),
        fresh.index == l.num_ec_point,
    ensures
        earlier.index != fresh.index,
{
}

/// Constant-point caching: assigning the same constant point twice in a row
/// returns the very same handle the second time — same identity — and the
/// second call changes nothing: only one circuit assignment ever happens.
pub proof fn lemma_constant_point_cached(
    l0: Halo2Loader,
    p: Pt,
    l1: Halo2Loader,
    r1: EcPoint,
    l2: Halo2Loader,
    r2: EcPoint,
)
    requires
        assign_const_ec_point_rel(l0, p, l1, r1),
        assign_const_ec_point_rel(l1, p, l2, r2),
    ensures
        r2 == r1,
        l2 == l1,
{
    match cache_lookup(l0.const_ec_point@, p.x, p.y) {
        Some(e) => {
            assert(l1 == l0);
            assert(cache_lookup(l1.const_ec_point@, p.x, p.y) == Some(r1));
        },
        None => {
            lemma_cache_lookup_push(l0.const_ec_point@, p.x, p.y, r1);
            assert(cache_lookup(l1.const_ec_point@, p.x, p.y) == Some(r1));
        },
    }
}

/// The two-bucket split behind the multi-scalar multiplication: the weighted
/// sum of any pairs equals the weighted sum over the pairs whose scalar is
/// not the constant one, plus the plain sum of the points whose scalar is
/// the constant one.
pub proof fn lemma_msm_split(l: Halo2Loader, pairs: Seq<(Scalar, EcPoint)>)
    requires
        loader_wf(l),
        pairs_wf(l, pairs),
    ensures
        msm_value(l, pairs) == opt_pt_add(
            msm_value_non_ones(l, pairs),
            msm_value_ones(l, pairs),
        ),
        opt_pt_wf(msm_value(l, pairs)),
        opt_pt_wf(msm_value_non_ones(l, pairs)),
        opt_pt_wf(msm_value_ones(l, pairs)),
    decreases pairs.len(),
{
    crate::field::lemma_fe_ops_wf(fe_zero(), fe_zero());
    if pairs.len() == 0 {
        lemma_opt_pt_add_zero(Some(pt_zero()));
    } else {
        let dl = pairs.drop_last();
        let s = pairs.last().0;
        let e = pairs.last().1;
        assert(pairs_wf(l, dl)) by {
            assert(forall|k: int| 0 <= k < dl.len() ==> dl[k] == pairs[k]);
        }
        assert(scalar_wf(l, s) && ec_point_wf(l, e)) by {
            assert(pairs[pairs.len() - 1] == pairs.last());
        }
        lemma_msm_split(l, dl);
        let n = msm_value_non_ones(l, dl);
        let o = msm_value_ones(l, dl);
        let pv = point_value(l, e);
        assert(opt_pt_wf(pv)) by {
            assert(match l.ctx.point_cells@[e.assigned.cell as int] {
                Some(q) => pt_wf(q),
                None => true,
            });
        }
        let tv = opt_pt_scale(scalar_value(l, s), pv);
        assert(opt_pt_wf(tv)) by {
            match (scalar_value(l, s), pv) {
                (Some(sv), Some(q)) => {
                    assert(fe_wf(sv)) by {
                        match s.value {
                            Value::Constant(_) => {},
                            Value::Assigned(a) => {
                                assert(match l.ctx.scalar_cells@[a.cell as int] {
                                    Some(v) => fe_wf(v),
                                    None => true,
                                });
                            },
                        }
                    }
                    crate::group::lemma_pt_ops_wf(q, q, sv);
                },
                _ => {},
            }
        }
        if is_one_scalar(s) {
            lemma_opt_pt_scale_one(pv);
            assert(tv == pv);
            lemma_opt_pt_add_assoc(n, o, pv);
        } else {
            lemma_opt_pt_add_assoc(n, tv, o);
            lemma_opt_pt_add_comm(tv, o);
            lemma_opt_pt_add_assoc(n, o, tv);
        }
    }
}

/// When every scalar is the constant one, the weighted sum collapses to the
/// iterated addition of the points themselves.
pub proof fn lemma_msm_all_ones(l: Halo2Loader, pairs: Seq<(Scalar, EcPoint)>)
    requires
        loader_wf(l),
        pairs_wf(l, pairs),
        forall|i: int| 0 <= i < pairs.len() ==> is_one_scalar((#[trigger] pairs[i]).0),
    ensures
        msm_value(l, pairs) == msm_value_ones(l, pairs),
    decreases pairs.len(),
{
    lemma_msm_split(l, pairs);
    assert(msm_value_non_ones(l, pairs) == Some(pt_zero())) by {
        lemma_msm_non_ones_vanishes(l, pairs);
    }
    lemma_opt_pt_add_zero(msm_value_ones(l, pairs));
}

/// With only one-scalar pairs the scaled bucket contributes nothing.
proof fn lemma_msm_non_ones_vanishes(l: Halo2Loader, pairs: Seq<(Scalar, EcPoint)>)
    requires
        forall|i: int| 0 <= i < pairs.len() ==> is_one_scalar((#[trigger] pairs[i]).0),
    ensures
        msm_value_non_ones(l, pairs) == Some(pt_zero()),
    decreases pairs.len(),
{
    if pairs.len() > 0 {
        assert(pairs[pairs.len() - 1] == pairs.last());
        lemma_msm_non_ones_vanishes(l, pairs.drop_last());
    }
}

/// One weighted term of a well-formed pair is a well-formed value.
proof fn lemma_pair_term_wf(l: Halo2Loader, pr: (Scalar, EcPoint))
    requires
        loader_wf(l),
        scalar_wf(l, pr.0),
        ec_point_wf(l, pr.1),
    ensures
        opt_pt_wf(opt_pt_scale(scalar_value(l, pr.0), point_value(l, pr.1))),
{
    match (scalar_value(l, pr.0), point_value(l, pr.1)) {
        (Some(sv), Some(q)) => {
            assert(fe_wf(sv)) by {
                match pr.0.value {
                    Value::Constant(_) => {},
                    Value::Assigned(a) => {
                        assert(match l.ctx.scalar_cells@[a.cell as int] {
                            Some(v) => fe_wf(v),
                            None => true,
                        });
                    },
                }
            }
            assert(pt_wf(q)) by {
                assert(match l.ctx.point_cells@[pr.1.assigned.cell as int] {
                    Some(w) => pt_wf(w),
                    None => true,
                });
            }
            crate::group::lemma_pt_ops_wf(q, q, sv);
        },
        _ => {},
    }
}

/// A weighted sum over well-formed pairs is a well-formed value.
proof fn lemma_msm_value_wf(l: Halo2Loader, pairs: Seq<(Scalar, EcPoint)>)
    requires
        loader_wf(l),
        pairs_wf(l, pairs),
    ensures
        opt_pt_wf(msm_value(l, pairs)),
    decreases pairs.len(),
{
    crate::field::lemma_fe_ops_wf(fe_zero(), fe_zero());
    if pairs.len() > 0 {
        assert(pairs_wf(l, pairs.drop_last())) by {
            assert(forall|k: int| 0 <= k < pairs.len() - 1 ==> pairs.drop_last()[k] == pairs[k]);
        }
        lemma_msm_value_wf(l, pairs.drop_last());
        assert(pairs[pairs.len() - 1] == pairs.last());
        lemma_pair_term_wf(l, pairs.last());
        match (
            msm_value(l, pairs.drop_last()),
            opt_pt_scale(scalar_value(l, pairs.last().0), point_value(l, pairs.last().1)),
        ) {
            (Some(acc), Some(t)) => crate::group::lemma_pt_ops_wf(acc, t, fe_zero()),
            _ => {},
        }
    }
}

/// Removing one pair splits a weighted sum into the remaining sum plus that
/// pair's term.
proof fn lemma_msm_value_remove(l: Halo2Loader, pairs: Seq<(Scalar, EcPoint)>, i: int)
    requires
        loader_wf(l),
        pairs_wf(l, pairs),
        0 <= i < pairs.len(),
    ensures
        msm_value(l, pairs) == opt_pt_add(
            msm_value(l, pairs.remove(i)),
            opt_pt_scale(scalar_value(l, pairs[i].0), point_value(l, pairs[i].1)),
        ),
    decreases pairs.len(),
{
    let dl = pairs.drop_last();
    assert(pairs_wf(l, dl)) by {
        assert(forall|k: int| 0 <= k < dl.len() ==> dl[k] == pairs[k]);
    }
    if i == pairs.len() - 1 {
        assert(pairs.remove(i) =~= dl);
        assert(pairs[i] == pairs.last());
    } else {
        lemma_msm_value_remove(l, dl, i);
        assert(pairs.remove(i).drop_last() =~= dl.remove(i));
        assert(pairs.remove(i).last() == pairs.last());
        assert(dl[i] == pairs[i]);
        assert(pairs_wf(l, dl.remove(i))) by {
            assert(forall|k: int| 0 <= k < dl.remove(i).len() ==> dl.remove(i)[k] == (if k < i {
                dl[k]
            } else {
                dl[k + 1]
            }));
        }
        lemma_msm_value_wf(l, dl.remove(i));
        assert(pairs[pairs.len() - 1] == pairs.last());
        lemma_pair_term_wf(l, pairs.last());
        lemma_pair_term_wf(l, pairs[i]);
        let m = msm_value(l, dl.remove(i));
        let ti = opt_pt_scale(scalar_value(l, pairs[i].0), point_value(l, pairs[i].1));
        let tl = opt_pt_scale(scalar_value(l, pairs.last().0), point_value(l, pairs.last().1));
        lemma_opt_pt_add_assoc(m, ti, tl);
        lemma_opt_pt_add_comm(ti, tl);
        lemma_opt_pt_add_assoc(m, tl, ti);
    }
}

/// Order independence of the weighted sum: two pair lists holding the same
/// pairs, in any order, have the same weighted sum, since point addition is
/// commutative and associative at the group level.
pub proof fn lemma_msm_value_permuted(
    l: Halo2Loader,
    pairs1: Seq<(Scalar, EcPoint)>,
    pairs2: Seq<(Scalar, EcPoint)>,
)
    requires
        loader_wf(l),
        pairs_wf(l, pairs1),
        pairs1.to_multiset() == pairs2.to_multiset(),
    ensures
        msm_value(l, pairs1) == msm_value(l, pairs2),
    decreases pairs2.len(),
{
    broadcast use vstd::seq_lib::group_to_multiset_ensures;

    if pairs2.len() == 0 {
        assert(pairs1.len() == pairs1.to_multiset().len());
        assert(pairs2.len() == pairs2.to_multiset().len());
        assert(pairs1.len() == 0);
    } else {
        let t = pairs2.last();
        assert(pairs2[pairs2.len() - 1] == t);
        assert(pairs2.to_multiset().contains(t));
        assert(pairs1.to_multiset().contains(t));
        assert(pairs1.contains(t));
        let i = choose|i: int| 0 <= i < pairs1.len() && pairs1[i] == t;
        lemma_msm_value_remove(l, pairs1, i);
        assert(pairs1.remove(i).to_multiset() =~= pairs1.to_multiset().remove(t));
        assert(pairs2.drop_last() =~= pairs2.remove(pairs2.len() - 1));
        assert(pairs2.remove(pairs2.len() - 1).to_multiset() =~= pairs2.to_multiset().remove(t));
        assert(pairs_wf(l, pairs1.remove(i))) by {
            assert(forall|k: int| 0 <= k < pairs1.remove(i).len() ==> pairs1.remove(i)[k] == (
            if k < i {
                pairs1[k]
            } else {
                pairs1[k + 1]
            }));
        }
        lemma_msm_value_permuted(l, pairs1.remove(i), pairs2.drop_last());
    }
}

} // verus!

