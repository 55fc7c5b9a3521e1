//! The toy curve group used by the native chip: pairs of field elements in
//! affine-style coordinates, added componentwise. It is a small commutative
//! group with the algebraic laws the loader's batching relies on (commutative
//! and associative addition, scaling by one is the identity), serving as the
//! reference implementation for point arithmetic.

use crate::field::{fe_add, fe_mul, fe_one, fe_wf, fe_zero, Fe};
use crate::field::{lemma_fe_add_assoc, lemma_fe_add_comm, lemma_fe_add_zero, lemma_fe_mul_one};
use vstd::prelude::*;

verus! {

/// A point of the toy group, in affine-style coordinates.
#[derive(Clone, Copy, Debug, PartialEq, Eq, Structural)]
pub struct Pt {
    pub x: Fe,
    pub y: Fe,
}

/// A point is well-formed when both coordinates are reduced.
pub open spec fn pt_wf(p: Pt) -> bool {
    fe_wf(p.x) && fe_wf(p.y)
}

pub open spec fn pt_zero() -> Pt {
    Pt { x: fe_zero(), y: fe_zero() }
}

pub open spec fn pt_add(p: Pt, q: Pt) -> Pt {
    Pt { x: fe_add(p.x, q.x), y: fe_add(p.y, q.y) }
}

/// Scaling a point by a scalar: the group-level multiple `s . p`.
pub open spec fn pt_scale(s: Fe, p: Pt) -> Pt {
    Pt { x: fe_mul(s, p.x), y: fe_mul(s, p.y) }
}

impl Pt {
    pub fn new(x: Fe, y: Fe) -> (r: Pt)
        ensures
            r == (Pt { x, y }),
    {
        Pt { x, y }
    }

    pub fn zero() -> (r: Pt)
        ensures
            r == pt_zero(),
            pt_wf(r),
    {
        Pt { x: Fe::zero(), y: Fe::zero() }
    }

    /// Reference point addition, used both by the native chip and by tests
    /// as the ground truth for batched point sums.
    pub fn add(self, other: Pt) -> (r: Pt)
        requires
            pt_wf(self),
            pt_wf(other),
        ensures
            r == pt_add(self, other),
            pt_wf(r),
    {
        Pt { x: self.x.add(other.x), y: self.y.add(other.y) }
    }

    /// Reference scaling, the ground truth for one weighted term of a
    /// multi-scalar multiplication.
    pub fn scale(self, s: Fe) -> (r: Pt)
        requires
            pt_wf(self),
            fe_wf(s),
        ensures
            r == pt_scale(s, self),
            pt_wf(r),
    {
        Pt { x: s.mul(self.x), y: s.mul(self.y) }
    }
}

/// The result of a toy-group operation is always well-formed.
pub proof fn lemma_pt_ops_wf(p: Pt, q: Pt, s: Fe)
    ensures
        pt_wf(pt_add(p, q)),
        pt_wf(pt_scale(s, p)),
{
    crate::field::lemma_fe_ops_wf(p.x, q.x);
    crate::field::lemma_fe_ops_wf(p.y, q.y);
    crate::field::lemma_fe_ops_wf(s, p.x);
    crate::field::lemma_fe_ops_wf(s, p.y);
}

/// Toy-group addition is commutative.
pub proof fn lemma_pt_add_comm(p: Pt, q: Pt)
    ensures
        pt_add(p, q) == pt_add(q, p),
{
    lemma_fe_add_comm(p.x, q.x);
    lemma_fe_add_comm(p.y, q.y);
}

/// Toy-group addition is associative.
pub proof fn lemma_pt_add_assoc(p: Pt, q: Pt, r: Pt)
    requires
        pt_wf(p),
        pt_wf(q),
        pt_wf(r),
    ensures
        pt_add(pt_add(p, q), r) == pt_add(p, pt_add(q, r)),
{
    lemma_fe_add_assoc(p.x, q.x, r.x);
    lemma_fe_add_assoc(p.y, q.y, r.y);
}

/// The zero point is the identity of toy-group addition.
pub proof fn lemma_pt_add_zero(p: Pt)
    requires
        pt_wf(p),
    ensures
        pt_add(pt_zero(), p) == p,
{
    lemma_fe_add_zero(p.x);
    lemma_fe_add_zero(p.y);
}

/// Scaling by the scalar one leaves a point unchanged.
pub proof fn lemma_pt_scale_one(p: Pt)
    requires
        pt_wf(p),
    ensures
        pt_scale(fe_one(), p) == p,
{
    lemma_fe_mul_one(p.x);
    lemma_fe_mul_one(p.y);
}

} // verus!
