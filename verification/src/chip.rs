//! The native chip set behind the loader: a circuit-building context that
//! tracks assigned cells and consumed rows, a scalar chip for in-circuit
//! field arithmetic, and a curve chip for in-circuit point arithmetic.
//! Every cell holds either a known value or an unknown witness; each chip
//! operation consumes one row and appends the cell it produces.

use crate::field::{fe_add, fe_has_inv, fe_mul, fe_neg, fe_one, fe_sub, fe_wf, Fe};
use crate::group::{pt_add, pt_scale, pt_wf, pt_zero, Pt};
use vstd::prelude::*;

verus! {

/// Handle of one scalar cell of the circuit-building context.
#[derive(Clone, Copy, Debug, PartialEq, Eq, Structural)]
pub struct AssignedScalar {
    pub cell: usize,
}

/// Handle of one point cell of the circuit-building context.
#[derive(Clone, Copy, Debug, PartialEq, Eq, Structural)]
pub struct AssignedEcPoint {
    pub cell: usize,
}

/// The circuit-building context: the cells assigned so far and the number of
/// rows consumed. A cell holds `None` when its witness is unknown.
pub struct Ctx {
    pub offset: usize,
    pub scalar_cells: Vec<Option<Fe>>,
    pub point_cells: Vec<Option<Pt>>,
}

/// Every known cell value is well-formed.
pub open spec fn scalar_cells_wf(s: Seq<Option<Fe>>) -> bool {
    forall|i: int| 0 <= i < s.len() ==> match #[trigger] s[i] {
        Some(v) => fe_wf(v),
        None => true,
    }
}

pub open spec fn point_cells_wf(s: Seq<Option<Pt>>) -> bool {
    forall|i: int| 0 <= i < s.len() ==> match #[trigger] s[i] {
        Some(p) => pt_wf(p),
        None => true,
    }
}

pub open spec fn ctx_wf(c: Ctx) -> bool {
    scalar_cells_wf(c.scalar_cells@) && point_cells_wf(c.point_cells@)
}

/// The new context keeps every cell of the old one and has not gone back in
/// rows: what chip operations do to a context.
pub open spec fn ctx_extends(new: Ctx, old: Ctx) -> bool {
    old.scalar_cells@.is_prefix_of(new.scalar_cells@)
        && old.point_cells@.is_prefix_of(new.point_cells@)
        && new.offset >= old.offset
}

pub open spec fn opt_fe_add(a: Option<Fe>, b: Option<Fe>) -> Option<Fe> {
    match (a, b) {
        (Some(x), Some(y)) => Some(fe_add(x, y)),
        _ => None,
    }
}

pub open spec fn opt_fe_sub(a: Option<Fe>, b: Option<Fe>) -> Option<Fe> {
    match (a, b) {
        (Some(x), Some(y)) => Some(fe_sub(x, y)),
        _ => None,
    }
}

pub open spec fn opt_fe_mul(a: Option<Fe>, b: Option<Fe>) -> Option<Fe> {
    match (a, b) {
        (Some(x), Some(y)) => Some(fe_mul(x, y)),
        _ => None,
    }
}

pub open spec fn opt_fe_neg(a: Option<Fe>) -> Option<Fe> {
    match a {
        Some(x) => Some(fe_neg(x)),
        None => None,
    }
}

pub open spec fn opt_pt_add(a: Option<Pt>, b: Option<Pt>) -> Option<Pt> {
    match (a, b) {
        (Some(p), Some(q)) => Some(pt_add(p, q)),
        _ => None,
    }
}

pub open spec fn opt_pt_scale(s: Option<Fe>, p: Option<Pt>) -> Option<Pt> {
    match (s, p) {
        (Some(x), Some(q)) => Some(pt_scale(x, q)),
        _ => None,
    }
}

pub open spec fn opt_fe_wf(o: Option<Fe>) -> bool {
    match o {
        Some(v) => fe_wf(v),
        None => true,
    }
}

pub open spec fn opt_pt_wf(o: Option<Pt>) -> bool {
    match o {
        Some(p) => pt_wf(p),
        None => true,
    }
}

/// Value of a linear combination with a constant term over the given scalar
/// cells: `constant + sum of coeff * cell`, unknown as soon as one cell is.
pub open spec fn lc_value(cells: Seq<Option<Fe>>, terms: Seq<(Fe, AssignedScalar)>, constant: Fe) -> Option<Fe>
    decreases terms.len(),
{
    if terms.len() == 0 {
        Some(constant)
    } else {
        let t = terms.last();
        opt_fe_add(lc_value(cells, terms.drop_last(), constant), opt_fe_mul(Some(t.0), cells[t.1.cell as int]))
    }
}

/// Value of a sum of coefficient-weighted products with a constant term:
/// `constant + sum of coeff * cell_a * cell_b`.
pub open spec fn prod_lc_value(
    cells: Seq<Option<Fe>>,
    terms: Seq<(Fe, AssignedScalar, AssignedScalar)>,
    constant: Fe,
) -> Option<Fe>
    decreases terms.len(),
{
    if terms.len() == 0 {
        Some(constant)
    } else {
        let t = terms.last();
        opt_fe_add(
            prod_lc_value(cells, terms.drop_last(), constant),
            opt_fe_mul(Some(t.0), opt_fe_mul(cells[t.1.cell as int], cells[t.2.cell as int])),
        )
    }
}

/// Value of a multi-scalar multiplication over pairs of point and scalar
/// cells: the sum of each point scaled by its scalar.
pub open spec fn msm_cells_value(
    scalar_cells: Seq<Option<Fe>>,
    point_cells: Seq<Option<Pt>>,
    pairs: Seq<(AssignedEcPoint, AssignedScalar)>,
) -> Option<Pt>
    decreases pairs.len(),
{
    if pairs.len() == 0 {
        Some(pt_zero())
    } else {
        let t = pairs.last();
        opt_pt_add(
            msm_cells_value(scalar_cells, point_cells, pairs.drop_last()),
            opt_pt_scale(scalar_cells[t.1.cell as int], point_cells[t.0.cell as int]),
        )
    }
}

/// Value of the plain sum of the given point cells.
pub open spec fn points_sum_value(point_cells: Seq<Option<Pt>>, pts: Seq<AssignedEcPoint>) -> Option<Pt>
    decreases pts.len(),
{
    if pts.len() == 0 {
        Some(pt_zero())
    } else {
        opt_pt_add(points_sum_value(point_cells, pts.drop_last()), point_cells[pts.last().cell as int])
    }
}

/// Unknown-propagating point addition is commutative.
pub proof fn lemma_opt_pt_add_comm(a: Option<Pt>, b: Option<Pt>)
    ensures
        opt_pt_add(a, b) == opt_pt_add(b, a),
{
    match (a, b) {
        (Some(p), Some(q)) => crate::group::lemma_pt_add_comm(p, q),
        _ => {},
    }
}

/// Unknown-propagating point addition is associative.
pub proof fn lemma_opt_pt_add_assoc(a: Option<Pt>, b: Option<Pt>, c: Option<Pt>)
    requires
        opt_pt_wf(a),
        opt_pt_wf(b),
        opt_pt_wf(c),
    ensures
        opt_pt_add(opt_pt_add(a, b), c) == opt_pt_add(a, opt_pt_add(b, c)),
{
    match (a, b, c) {
        (Some(p), Some(q), Some(r)) => crate::group::lemma_pt_add_assoc(p, q, r),
        _ => {},
    }
}

/// The known zero point is the identity of unknown-propagating addition.
pub proof fn lemma_opt_pt_add_zero(a: Option<Pt>)
    requires
        opt_pt_wf(a),
    ensures
        opt_pt_add(Some(pt_zero()), a) == a,
{
    match a {
        Some(p) => crate::group::lemma_pt_add_zero(p),
        None => {},
    }
}

/// Scaling by the known scalar one leaves an unknown-propagating point as is.
pub proof fn lemma_opt_pt_scale_one(p: Option<Pt>)
    requires
        opt_pt_wf(p),
    ensures
        opt_pt_scale(Some(crate::field::fe_one()), p) == p,
{
    match p {
        Some(q) => crate::group::lemma_pt_scale_one(q),
        None => {},
    }
}

/// An index below the prefix length reads the same cell in both sequences.
pub proof fn lemma_prefix_index<T>(s1: Seq<T>, s2: Seq<T>, i: int)
    requires
        s1.is_prefix_of(s2),
        0 <= i < s1.len(),
    ensures
        s1[i] == s2[i],
{
    assert(s2.take(s1.len() as int)[i] == s2[i]);
}

/// A linear combination reads only its term cells, so extending the cell
/// table does not change its value.
pub proof fn lemma_lc_value_extends(
    c1: Seq<Option<Fe>>,
    c2: Seq<Option<Fe>>,
    terms: Seq<(Fe, AssignedScalar)>,
    constant: Fe,
)
    requires
        c1.is_prefix_of(c2),
        forall|i: int| 0 <= i < terms.len() ==> (#[trigger] terms[i]).1.cell < c1.len(),
    ensures
        lc_value(c2, terms, constant) == lc_value(c1, terms, constant),
    decreases terms.len(),
{
    if terms.len() > 0 {
        lemma_lc_value_extends(c1, c2, terms.drop_last(), constant);
        lemma_prefix_index(c1, c2, terms.last().1.cell as int);
    }
}

/// A sum of weighted products reads only its term cells, so extending the
/// cell table does not change its value.
pub proof fn lemma_lc_value_extends_prod(
    c1: Seq<Option<Fe>>,
    c2: Seq<Option<Fe>>,
    terms: Seq<(Fe, AssignedScalar, AssignedScalar)>,
    constant: Fe,
)
    requires
        c1.is_prefix_of(c2),
        forall|i: int| 0 <= i < terms.len() ==> (#[trigger] terms[i]).1.cell < c1.len()
            && terms[i].2.cell < c1.len(),
    ensures
        prod_lc_value(c2, terms, constant) == prod_lc_value(c1, terms, constant),
    decreases terms.len(),
{
    if terms.len() > 0 {
        lemma_lc_value_extends_prod(c1, c2, terms.drop_last(), constant);
        lemma_prefix_index(c1, c2, terms.last().1.cell as int);
        lemma_prefix_index(c1, c2, terms.last().2.cell as int);
    }
}

/// A batched multi-scalar multiplication reads only its pair cells, so
/// extending either cell table does not change its value.
pub proof fn lemma_msm_cells_value_extends(
    sc1: Seq<Option<Fe>>,
    sc2: Seq<Option<Fe>>,
    pc1: Seq<Option<Pt>>,
    pc2: Seq<Option<Pt>>,
    pairs: Seq<(AssignedEcPoint, AssignedScalar)>,
)
    requires
        sc1.is_prefix_of(sc2),
        pc1.is_prefix_of(pc2),
        forall|i: int| 0 <= i < pairs.len() ==> (#[trigger] pairs[i]).0.cell < pc1.len()
            && pairs[i].1.cell < sc1.len(),
    ensures
        msm_cells_value(sc2, pc2, pairs) == msm_cells_value(sc1, pc1, pairs),
    decreases pairs.len(),
{
    if pairs.len() > 0 {
        lemma_msm_cells_value_extends(sc1, sc2, pc1, pc2, pairs.drop_last());
        lemma_prefix_index(sc1, sc2, pairs.last().1.cell as int);
        lemma_prefix_index(pc1, pc2, pairs.last().0.cell as int);
    }
}

/// A plain sum of point cells reads only those cells, so extending the cell
/// table does not change its value.
pub proof fn lemma_points_sum_value_extends(
    pc1: Seq<Option<Pt>>,
    pc2: Seq<Option<Pt>>,
    pts: Seq<AssignedEcPoint>,
)
    requires
        pc1.is_prefix_of(pc2),
        forall|i: int| 0 <= i < pts.len() ==> (#[trigger] pts[i]).cell < pc1.len(),
    ensures
        points_sum_value(pc2, pts) == points_sum_value(pc1, pts),
    decreases pts.len(),
{
    if pts.len() > 0 {
        lemma_points_sum_value_extends(pc1, pc2, pts.drop_last());
        lemma_prefix_index(pc1, pc2, pts.last().cell as int);
    }
}

/// A batched multi-scalar multiplication over well-formed cells yields a
/// well-formed value.
pub proof fn lemma_msm_cells_value_wf(
    sc: Seq<Option<Fe>>,
    pc: Seq<Option<Pt>>,
    pairs: Seq<(AssignedEcPoint, AssignedScalar)>,
)
    requires
        scalar_cells_wf(sc),
        point_cells_wf(pc),
        forall|i: int| 0 <= i < pairs.len() ==> (#[trigger] pairs[i]).0.cell < pc.len()
            && pairs[i].1.cell < sc.len(),
    ensures
        opt_pt_wf(msm_cells_value(sc, pc, pairs)),
    decreases pairs.len(),
{
    if pairs.len() > 0 {
        lemma_msm_cells_value_wf(sc, pc, pairs.drop_last());
        let t = pairs.last();
        match (sc[t.1.cell as int], pc[t.0.cell as int]) {
            (Some(s), Some(p)) => {
                crate::group::lemma_pt_ops_wf(p, p, s);
                match msm_cells_value(sc, pc, pairs.drop_last()) {
                    Some(acc) => crate::group::lemma_pt_ops_wf(acc, pt_scale(s, p), s),
                    None => {},
                }
            },
            _ => {},
        }
    }
}

/// A plain sum of well-formed point cells yields a well-formed value.
pub proof fn lemma_points_sum_value_wf(pc: Seq<Option<Pt>>, pts: Seq<AssignedEcPoint>)
    requires
        point_cells_wf(pc),
        forall|i: int| 0 <= i < pts.len() ==> (#[trigger] pts[i]).cell < pc.len(),
    ensures
        opt_pt_wf(points_sum_value(pc, pts)),
    decreases pts.len(),
{
    if pts.len() > 0 {
        lemma_points_sum_value_wf(pc, pts.drop_last());
        match (points_sum_value(pc, pts.drop_last()), pc[pts.last().cell as int]) {
            (Some(acc), Some(p)) => crate::group::lemma_pt_ops_wf(acc, p, crate::field::fe_one()),
            _ => {},
        }
    }
}

impl Ctx {
    /// A fresh context: no cells assigned, no rows consumed.
    pub fn new() -> (r: Ctx)
        ensures
            r.offset == 0,
            r.scalar_cells@ == Seq::<Option<Fe>>::empty(),
            r.point_cells@ == Seq::<Option<Pt>>::empty(),
            ctx_wf(r),
    {
        Ctx { offset: 0, scalar_cells: Vec::new(), point_cells: Vec::new() }
    }

    /// The number of rows consumed so far.
    pub fn offset(&self) -> (r: usize)
        ensures
            r == self.offset,
    {
        self.offset
    }
}

/// The native scalar chip: in-circuit arithmetic over the toy scalar field.
pub struct ScalarChip {}

impl ScalarChip {
    pub fn new() -> (r: ScalarChip) {
        ScalarChip {}
    }

    /// Assigns a constant field element into a fresh scalar cell.
    pub fn assign_constant(&self, ctx: &mut Ctx, constant: Fe) -> (r: AssignedScalar)
        requires
            fe_wf(constant),
            old(ctx).offset < usize::MAX,
            ctx_wf(*old(ctx)),
        ensures
            r.cell == old(ctx).scalar_cells@.len(),
            final(ctx).scalar_cells@ == old(ctx).scalar_cells@.push(Some(constant)),
            final(ctx).point_cells@ == old(ctx).point_cells@,
            final(ctx).offset == old(ctx).offset + 1,
            ctx_wf(*final(ctx)),
            ctx_extends(*final(ctx), *old(ctx)),
    {
        let r = AssignedScalar { cell: ctx.scalar_cells.len() };
        ctx.scalar_cells.push(Some(constant));
        ctx.offset = ctx.offset + 1;
        r
    }

    /// Assigns a possibly-unknown witness into a fresh scalar cell.
    pub fn assign_integer(&self, ctx: &mut Ctx, integer: Option<Fe>) -> (r: AssignedScalar)
        requires
            integer matches Some(v) ==> fe_wf(v),
            old(ctx).offset < usize::MAX,
            ctx_wf(*old(ctx)),
        ensures
            r.cell == old(ctx).scalar_cells@.len(),
            final(ctx).scalar_cells@ == old(ctx).scalar_cells@.push(integer),
            final(ctx).point_cells@ == old(ctx).point_cells@,
            final(ctx).offset == old(ctx).offset + 1,
            ctx_wf(*final(ctx)),
            ctx_extends(*final(ctx), *old(ctx)),
    {
        let r = AssignedScalar { cell: ctx.scalar_cells.len() };
        ctx.scalar_cells.push(integer);
        ctx.offset = ctx.offset + 1;
        r
    }

    /// One linear-combination row: assigns a fresh cell holding
    /// `constant + sum of coeff * cell`.
    pub fn sum_with_coeff_and_const(
        &self,
        ctx: &mut Ctx,
        terms: &Vec<(Fe, AssignedScalar)>,
        constant: Fe,
    ) -> (r: AssignedScalar)
        requires
            fe_wf(constant),
            forall|i: int| 0 <= i < terms@.len() ==> fe_wf(#[trigger] terms@[i].0)
                && terms@[i].1.cell < old(ctx).scalar_cells@.len(),
            old(ctx).offset < usize::MAX,
            ctx_wf(*old(ctx)),
        ensures
            r.cell == old(ctx).scalar_cells@.len(),
            final(ctx).scalar_cells@ == old(ctx).scalar_cells@.push(
                lc_value(old(ctx).scalar_cells@, terms@, constant),
            ),
            final(ctx).point_cells@ == old(ctx).point_cells@,
            final(ctx).offset == old(ctx).offset + 1,
            ctx_wf(*final(ctx)),
            ctx_extends(*final(ctx), *old(ctx)),
    {
        let ghost cells0 = ctx.scalar_cells@;
        let mut acc: Option<Fe> = Some(constant);
        let mut i: usize = 0;
        while i < terms.len()
            invariant
                i <= terms@.len(),
                fe_wf(constant),
                forall|j: int| 0 <= j < terms@.len() ==> fe_wf(#[trigger] terms@[j].0)
                    && terms@[j].1.cell < cells0.len(),
                ctx.scalar_cells@ == cells0,
                scalar_cells_wf(cells0),
                acc == lc_value(cells0, terms@.take(i as int), constant),
                acc matches Some(v) ==> fe_wf(v),
            decreases terms@.len() - i,
        {
            let (coeff, a) = terms[i];
            let cell_val = ctx.scalar_cells[a.cell];
            acc = match (acc, cell_val) {
                (Some(s), Some(v)) => Some(s.add(coeff.mul(v))),
                _ => None,
            };
            proof {
                assert(terms@.take(i + 1).drop_last() =~= terms@.take(i as int));
                assert(terms@.take(i + 1).last() == terms@[i as int]);
            }
            i = i + 1;
        }
        proof {
            assert(terms@.take(terms@.len() as int) =~= terms@);
        }
        let r = AssignedScalar { cell: ctx.scalar_cells.len() };
        ctx.scalar_cells.push(acc);
        ctx.offset = ctx.offset + 1;
        r
    }

    /// One fused multiply-accumulate row: assigns a fresh cell holding
    /// `constant + sum of coeff * cell_a * cell_b`.
    pub fn sum_products_with_coeff_and_const(
        &self,
        ctx: &mut Ctx,
        terms: &Vec<(Fe, AssignedScalar, AssignedScalar)>,
        constant: Fe,
    ) -> (r: AssignedScalar)
        requires
            fe_wf(constant),
            forall|i: int| 0 <= i < terms@.len() ==> fe_wf(#[trigger] terms@[i].0)
                && terms@[i].1.cell < old(ctx).scalar_cells@.len()
                && terms@[i].2.cell < old(ctx).scalar_cells@.len(),
            old(ctx).offset < usize::MAX,
            ctx_wf(*old(ctx)),
        ensures
            r.cell == old(ctx).scalar_cells@.len(),
            final(ctx).scalar_cells@ == old(ctx).scalar_cells@.push(
                prod_lc_value(old(ctx).scalar_cells@, terms@, constant),
            ),
            final(ctx).point_cells@ == old(ctx).point_cells@,
            final(ctx).offset == old(ctx).offset + 1,
            ctx_wf(*final(ctx)),
            ctx_extends(*final(ctx), *old(ctx)),
    {
        let ghost cells0 = ctx.scalar_cells@;
        let mut acc: Option<Fe> = Some(constant);
        let mut i: usize = 0;
        while i < terms.len()
            invariant
                i <= terms@.len(),
                fe_wf(constant),
                forall|j: int| 0 <= j < terms@.len() ==> fe_wf(#[trigger] terms@[j].0)
                    && terms@[j].1.cell < cells0.len()
                    && terms@[j].2.cell < cells0.len(),
                ctx.scalar_cells@ == cells0,
                scalar_cells_wf(cells0),
                acc == prod_lc_value(cells0, terms@.take(i as int), constant),
                acc matches Some(v) ==> fe_wf(v),
            decreases terms@.len() - i,
        {
            let (coeff, a, b) = terms[i];
            let va = ctx.scalar_cells[a.cell];
            let vb = ctx.scalar_cells[b.cell];
            acc = match (acc, va, vb) {
                (Some(s), Some(x), Some(y)) => Some(s.add(coeff.mul(x.mul(y)))),
                _ => None,
            };
            proof {
                assert(terms@.take(i + 1).drop_last() =~= terms@.take(i as int));
                assert(terms@.take(i + 1).last() == terms@[i as int]);
            }
            i = i + 1;
        }
        proof {
            assert(terms@.take(terms@.len() as int) =~= terms@);
        }
        let r = AssignedScalar { cell: ctx.scalar_cells.len() };
        ctx.scalar_cells.push(acc);
        ctx.offset = ctx.offset + 1;
        r
    }

    /// One subtraction row over two scalar cells.
    pub fn sub(&self, ctx: &mut Ctx, lhs: &AssignedScalar, rhs: &AssignedScalar) -> (r: AssignedScalar)
        requires
            lhs.cell < old(ctx).scalar_cells@.len(),
            rhs.cell < old(ctx).scalar_cells@.len(),
            old(ctx).offset < usize::MAX,
            ctx_wf(*old(ctx)),
        ensures
            r.cell == old(ctx).scalar_cells@.len(),
            final(ctx).scalar_cells@ == old(ctx).scalar_cells@.push(
                opt_fe_sub(old(ctx).scalar_cells@[lhs.cell as int], old(ctx).scalar_cells@[rhs.cell as int]),
            ),
            final(ctx).point_cells@ == old(ctx).point_cells@,
            final(ctx).offset == old(ctx).offset + 1,
            ctx_wf(*final(ctx)),
            ctx_extends(*final(ctx), *old(ctx)),
    {
        let va = ctx.scalar_cells[lhs.cell];
        let vb = ctx.scalar_cells[rhs.cell];
        let out = match (va, vb) {
            (Some(x), Some(y)) => Some(x.sub(y)),
            _ => None,
        };
        let r = AssignedScalar { cell: ctx.scalar_cells.len() };
        ctx.scalar_cells.push(out);
        ctx.offset = ctx.offset + 1;
        r
    }

    /// One negation row over a scalar cell.
    pub fn neg(&self, ctx: &mut Ctx, scalar: &AssignedScalar) -> (r: AssignedScalar)
        requires
            scalar.cell < old(ctx).scalar_cells@.len(),
            old(ctx).offset < usize::MAX,
            ctx_wf(*old(ctx)),
        ensures
            r.cell == old(ctx).scalar_cells@.len(),
            final(ctx).scalar_cells@ == old(ctx).scalar_cells@.push(
                opt_fe_neg(old(ctx).scalar_cells@[scalar.cell as int]),
            ),
            final(ctx).point_cells@ == old(ctx).point_cells@,
            final(ctx).offset == old(ctx).offset + 1,
            ctx_wf(*final(ctx)),
            ctx_extends(*final(ctx), *old(ctx)),
    {
        let va = ctx.scalar_cells[scalar.cell];
        let out = match va {
            Some(x) => Some(x.neg()),
            None => None,
        };
        let r = AssignedScalar { cell: ctx.scalar_cells.len() };
        ctx.scalar_cells.push(out);
        ctx.offset = ctx.offset + 1;
        r
    }

    /// One inversion row over a scalar cell. A known value with no inverse in
    /// the field leaves the fresh cell unknown.
    pub fn invert(&self, ctx: &mut Ctx, scalar: &AssignedScalar) -> (r: AssignedScalar)
        requires
            scalar.cell < old(ctx).scalar_cells@.len(),
            old(ctx).offset < usize::MAX,
            ctx_wf(*old(ctx)),
        ensures
            r.cell == old(ctx).scalar_cells@.len(),
            final(ctx).scalar_cells@.len() == old(ctx).scalar_cells@.len() + 1,
            final(ctx).scalar_cells@.drop_last() == old(ctx).scalar_cells@,
            ({
                let out = final(ctx).scalar_cells@.last();
                match old(ctx).scalar_cells@[scalar.cell as int] {
                    Some(v) => if fe_has_inv(v) {
                        out matches Some(w) && fe_wf(w) && fe_mul(v, w) == fe_one()
                    } else {
                        out is None
                    },
                    None => out is None,
                }
            }),
            final(ctx).point_cells@ == old(ctx).point_cells@,
            final(ctx).offset == old(ctx).offset + 1,
            ctx_wf(*final(ctx)),
            ctx_extends(*final(ctx), *old(ctx)),
    {
        let va = ctx.scalar_cells[scalar.cell];
        let out = match va {
            Some(x) => x.invert(),
            None => None,
        };
        let r = AssignedScalar { cell: ctx.scalar_cells.len() };
        ctx.scalar_cells.push(out);
        ctx.offset = ctx.offset + 1;
        proof {
            assert(ctx.scalar_cells@.drop_last() =~= old(ctx).scalar_cells@);
        }
        r
    }

    /// One equality-constraint row over two scalar cells: fails exactly when
    /// both values are known and differ.
    pub fn assert_equal(&self, ctx: &mut Ctx, lhs: &AssignedScalar, rhs: &AssignedScalar) -> (r: Result<
        (),
        (),
    >)
        requires
            lhs.cell < old(ctx).scalar_cells@.len(),
            rhs.cell < old(ctx).scalar_cells@.len(),
            old(ctx).offset < usize::MAX,
            ctx_wf(*old(ctx)),
        ensures
            final(ctx).scalar_cells@ == old(ctx).scalar_cells@,
            final(ctx).point_cells@ == old(ctx).point_cells@,
            final(ctx).offset == old(ctx).offset + 1,
            ctx_wf(*final(ctx)),
            ctx_extends(*final(ctx), *old(ctx)),
            r is Err <==> (old(ctx).scalar_cells@[lhs.cell as int] matches Some(x)
                && old(ctx).scalar_cells@[rhs.cell as int] matches Some(y) && x != y),
    {
        let va = ctx.scalar_cells[lhs.cell];
        let vb = ctx.scalar_cells[rhs.cell];
        ctx.offset = ctx.offset + 1;
        match (va, vb) {
            (Some(x), Some(y)) => if x.n == y.n {
                Ok(())
            } else {
                Err(())
            },
            _ => Ok(()),
        }
    }
}

/// The native curve chip: in-circuit arithmetic over the toy group, with the
/// scalar chip nested inside it as in a real chip set.
pub struct EccChip {
    pub scalar_chip: ScalarChip,
}

impl EccChip {
    pub fn new() -> (r: EccChip) {
        EccChip { scalar_chip: ScalarChip {} }
    }

    /// The scalar chip that belongs to this curve chip.
    pub fn scalar_chip(&self) -> (r: &ScalarChip) {
        &self.scalar_chip
    }

    /// Assigns a possibly-unknown point witness into a fresh point cell.
    pub fn assign_point(&self, ctx: &mut Ctx, ec_point: Option<Pt>) -> (r: AssignedEcPoint)
        requires
            ec_point matches Some(p) ==> pt_wf(p),
            old(ctx).offset < usize::MAX,
            ctx_wf(*old(ctx)),
        ensures
            r.cell == old(ctx).point_cells@.len(),
            final(ctx).point_cells@ == old(ctx).point_cells@.push(ec_point),
            final(ctx).scalar_cells@ == old(ctx).scalar_cells@,
            final(ctx).offset == old(ctx).offset + 1,
            ctx_wf(*final(ctx)),
            ctx_extends(*final(ctx), *old(ctx)),
    {
        let r = AssignedEcPoint { cell: ctx.point_cells.len() };
        ctx.point_cells.push(ec_point);
        ctx.offset = ctx.offset + 1;
        r
    }

    /// One point-addition row over two point cells.
    pub fn add(&self, ctx: &mut Ctx, lhs: &AssignedEcPoint, rhs: &AssignedEcPoint) -> (r: AssignedEcPoint)
        requires
            lhs.cell < old(ctx).point_cells@.len(),
            rhs.cell < old(ctx).point_cells@.len(),
            old(ctx).offset < usize::MAX,
            ctx_wf(*old(ctx)),
        ensures
            r.cell == old(ctx).point_cells@.len(),
            final(ctx).point_cells@ == old(ctx).point_cells@.push(
                opt_pt_add(old(ctx).point_cells@[lhs.cell as int], old(ctx).point_cells@[rhs.cell as int]),
            ),
            final(ctx).scalar_cells@ == old(ctx).scalar_cells@,
            final(ctx).offset == old(ctx).offset + 1,
            ctx_wf(*final(ctx)),
            ctx_extends(*final(ctx), *old(ctx)),
    {
        let va = ctx.point_cells[lhs.cell];
        let vb = ctx.point_cells[rhs.cell];
        let out = match (va, vb) {
            (Some(p), Some(q)) => Some(p.add(q)),
            _ => None,
        };
        let r = AssignedEcPoint { cell: ctx.point_cells.len() };
        ctx.point_cells.push(out);
        ctx.offset = ctx.offset + 1;
        r
    }

    /// One fused multi-scalar-multiplication row over a whole batch of
    /// (point, scalar) cell pairs.
    pub fn multi_scalar_multiplication(
        &self,
        ctx: &mut Ctx,
        pairs: &Vec<(AssignedEcPoint, AssignedScalar)>,
    ) -> (r: AssignedEcPoint)
        requires
            forall|i: int| 0 <= i < pairs@.len() ==> (#[trigger] pairs@[i]).0.cell
                < old(ctx).point_cells@.len() && pairs@[i].1.cell < old(ctx).scalar_cells@.len(),
            old(ctx).offset < usize::MAX,
            ctx_wf(*old(ctx)),
        ensures
            r.cell == old(ctx).point_cells@.len(),
            final(ctx).point_cells@ == old(ctx).point_cells@.push(
                msm_cells_value(old(ctx).scalar_cells@, old(ctx).point_cells@, pairs@),
            ),
            final(ctx).scalar_cells@ == old(ctx).scalar_cells@,
            final(ctx).offset == old(ctx).offset + 1,
            ctx_wf(*final(ctx)),
            ctx_extends(*final(ctx), *old(ctx)),
    {
        let ghost sc0 = ctx.scalar_cells@;
        let ghost pc0 = ctx.point_cells@;
        let mut acc: Option<Pt> = Some(Pt::zero());
        let mut i: usize = 0;
        while i < pairs.len()
            invariant
                i <= pairs@.len(),
                forall|j: int| 0 <= j < pairs@.len() ==> (#[trigger] pairs@[j]).0.cell < pc0.len()
                    && pairs@[j].1.cell < sc0.len(),
                ctx.scalar_cells@ == sc0,
                ctx.point_cells@ == pc0,
                scalar_cells_wf(sc0),
                point_cells_wf(pc0),
                acc == msm_cells_value(sc0, pc0, pairs@.take(i as int)),
                acc matches Some(p) ==> pt_wf(p),
            decreases pairs@.len() - i,
        {
            let (p, s) = pairs[i];
            let pv = ctx.point_cells[p.cell];
            let sv = ctx.scalar_cells[s.cell];
            acc = match (acc, sv, pv) {
                (Some(a), Some(x), Some(q)) => Some(a.add(q.scale(x))),
                _ => None,
            };
            proof {
                assert(pairs@.take(i + 1).drop_last() =~= pairs@.take(i as int));
                assert(pairs@.take(i + 1).last() == pairs@[i as int]);
            }
            i = i + 1;
        }
        proof {
            assert(pairs@.take(pairs@.len() as int) =~= pairs@);
        }
        let r = AssignedEcPoint { cell: ctx.point_cells.len() };
        ctx.point_cells.push(acc);
        ctx.offset = ctx.offset + 1;
        r
    }

    /// One normalization row: a fresh point cell holding the same value in
    /// canonical form.
    pub fn normalize(&self, ctx: &mut Ctx, ec_point: &AssignedEcPoint) -> (r: AssignedEcPoint)
        requires
            ec_point.cell < old(ctx).point_cells@.len(),
            old(ctx).offset < usize::MAX,
            ctx_wf(*old(ctx)),
        ensures
            r.cell == old(ctx).point_cells@.len(),
            final(ctx).point_cells@ == old(ctx).point_cells@.push(
                old(ctx).point_cells@[ec_point.cell as int],
            ),
            final(ctx).scalar_cells@ == old(ctx).scalar_cells@,
            final(ctx).offset == old(ctx).offset + 1,
            ctx_wf(*final(ctx)),
            ctx_extends(*final(ctx), *old(ctx)),
    {
        let v = ctx.point_cells[ec_point.cell];
        let r = AssignedEcPoint { cell: ctx.point_cells.len() };
        ctx.point_cells.push(v);
        ctx.offset = ctx.offset + 1;
        r
    }

    /// One equality-constraint row over two point cells: fails exactly when
    /// both values are known and differ.
    pub fn assert_equal(&self, ctx: &mut Ctx, lhs: &AssignedEcPoint, rhs: &AssignedEcPoint) -> (r: Result<
        (),
        (),
    >)
        requires
            lhs.cell < old(ctx).point_cells@.len(),
            rhs.cell < old(ctx).point_cells@.len(),
            old(ctx).offset < usize::MAX,
            ctx_wf(*old(ctx)),
        ensures
            final(ctx).scalar_cells@ == old(ctx).scalar_cells@,
            final(ctx).point_cells@ == old(ctx).point_cells@,
            final(ctx).offset == old(ctx).offset + 1,
            ctx_wf(*final(ctx)),
            ctx_extends(*final(ctx), *old(ctx)),
            r is Err <==> (old(ctx).point_cells@[lhs.cell as int] matches Some(p)
                && old(ctx).point_cells@[rhs.cell as int] matches Some(q) && p != q),
    {
        let va = ctx.point_cells[lhs.cell];
        let vb = ctx.point_cells[rhs.cell];
        ctx.offset = ctx.offset + 1;
        match (va, vb) {
            (Some(p), Some(q)) => if p.x.n == q.x.n && p.y.n == q.y.n {
                Ok(())
            } else {
                Err(())
            },
            _ => Ok(()),
        }
    }
}

} // verus!
