use halo2_loader::{Ctx, EcPoint, EccChip, Error, Fe, Halo2Loader, Pt, Scalar, Value};

fn fresh_loader() -> Halo2Loader {
    Halo2Loader::new(EccChip::new(), Ctx::new())
}

fn scalar_cell_value(loader: &Halo2Loader, s: &Scalar) -> Option<Fe> {
    match s.value {
        Value::Constant(c) => Some(c),
        Value::Assigned(a) => loader.ctx.scalar_cells[a.cell],
    }
}

fn point_cell_value(loader: &Halo2Loader, p: &EcPoint) -> Option<Pt> {
    loader.ctx.point_cells[p.assigned.cell]
}

#[test]
fn fe_arithmetic_exact_values() {
    assert_eq!(Fe::new(255).n, 4);
    assert_eq!(Fe::new(249).add(Fe::new(5)).n, 3);
    assert_eq!(Fe::new(3).sub(Fe::new(5)).n, 249);
    assert_eq!(Fe::new(30).mul(Fe::new(40)).n, 196);
    assert_eq!(Fe::new(0).neg().n, 0);
    assert_eq!(Fe::new(1).neg().n, 250);
}

#[test]
fn fe_invert_exact_values() {
    assert_eq!(Fe::new(1).invert(), Some(Fe::new(1)));
    assert_eq!(Fe::new(2).invert(), Some(Fe::new(126)));
    assert_eq!(Fe::new(3).invert(), Some(Fe::new(84)));
    assert_eq!(Fe::new(0).invert(), None);
}

#[test]
fn toy_group_reference_ops() {
    let p = Pt::new(Fe::new(3), Fe::new(4));
    let q = Pt::new(Fe::new(10), Fe::new(250));
    let s = p.add(q);
    assert_eq!(s.x.n, 13);
    assert_eq!(s.y.n, 3);
    let d = p.scale(Fe::new(5));
    assert_eq!(d.x.n, 15);
    assert_eq!(d.y.n, 20);
}

#[test]
fn identity_uniqueness_monotone() {
    let mut loader = fresh_loader();
    let a = loader.load_const(&Fe::new(3));
    let b = loader.load_const(&Fe::new(3));
    let c = loader.add(&a, &b);
    let d = loader.assign_const_scalar(Fe::new(7));
    let e = loader.mul(&c, &d);
    assert_eq!(a.index, 0);
    assert_eq!(b.index, 1);
    assert_eq!(c.index, 2);
    assert_eq!(d.index, 3);
    assert_eq!(e.index, 4);
    assert_eq!(loader.num_scalar, 5);
    // Identity is per handle, not per numeric value: a and b hold the same
    // constant but are distinct handles.
    assert_ne!(a.index, b.index);
    let p1 = loader.assign_ec_point(Some(Pt::new(Fe::new(1), Fe::new(2))));
    let p2 = loader.assign_ec_point(Some(Pt::new(Fe::new(1), Fe::new(2))));
    assert_eq!(p1.index, 0);
    assert_eq!(p2.index, 1);
    assert_eq!(loader.num_ec_point, 2);
}

#[test]
fn identity_equality_not_value_equality() {
    let mut loader = fresh_loader();
    let a = loader.load_const(&Fe::new(9));
    let b = loader.load_const(&Fe::new(9));
    // Two separately computed, numerically equal scalars compare unequal.
    assert!(a != b);
    let c = a.clone();
    assert!(a == c);
    let p = Pt::new(Fe::new(1), Fe::new(2));
    let h1 = loader.assign_ec_point(Some(p));
    let h2 = loader.assign_ec_point(Some(p));
    assert!(h1 != h2);
    // A cache hit hands back the very same handle.
    let h3 = loader.assign_const_ec_point(p);
    let h4 = loader.assign_const_ec_point(p);
    assert!(h3 == h4);
}

#[test]
fn constant_folding_add_no_rows() {
    let mut loader = fresh_loader();
    loader.start_row_metering("fold".to_string());
    let a = loader.load_const(&Fe::new(3));
    let b = loader.load_const(&Fe::new(5));
    let c = loader.add(&a, &b);
    loader.end_row_metering();
    assert!(matches!(c.value, Value::Constant(v) if v.n == 8));
    let meterings = loader.row_meterings();
    assert_eq!(meterings.len(), 1);
    assert_eq!(meterings[0].0, "fold");
    assert_eq!(meterings[0].1, 0);
}

#[test]
fn constant_folding_all_ops() {
    let mut loader = fresh_loader();
    let offset_before = loader.ctx.offset;
    let a = loader.load_const(&Fe::new(3));
    let b = loader.load_const(&Fe::new(5));
    let sum = loader.add(&a, &b);
    let diff = loader.sub(&a, &b);
    let prod = loader.mul(&a, &b);
    let neg = loader.neg(&a);
    let inv = loader.invert(&a);
    assert!(matches!(sum.value, Value::Constant(v) if v.n == 8));
    assert!(matches!(diff.value, Value::Constant(v) if v.n == 249));
    assert!(matches!(prod.value, Value::Constant(v) if v.n == 15));
    assert!(matches!(neg.value, Value::Constant(v) if v.n == 248));
    assert!(matches!(inv.value, Value::Constant(v) if v.n == 84));
    // No circuit rows were consumed by any folded operation.
    assert_eq!(loader.ctx.offset, offset_before);
}

#[test]
fn circuit_ops_consume_rows() {
    let mut loader = fresh_loader();
    let a = loader.assign_const_scalar(Fe::new(3));
    let b = loader.assign_const_scalar(Fe::new(5));
    let offset_before = loader.ctx.offset;
    let c = loader.add(&a, &b);
    assert!(matches!(c.value, Value::Assigned(_)));
    assert_eq!(loader.ctx.offset, offset_before + 1);
    assert_eq!(scalar_cell_value(&loader, &c), Some(Fe::new(8)));
}

#[test]
fn mixed_operand_folds_constant_into_row() {
    let mut loader = fresh_loader();
    let a = loader.assign_const_scalar(Fe::new(3));
    let c5 = loader.load_const(&Fe::new(5));
    let sum = loader.add(&a, &c5);
    let diff = loader.sub(&c5, &a);
    let prod = loader.mul(&c5, &a);
    assert_eq!(scalar_cell_value(&loader, &sum), Some(Fe::new(8)));
    assert_eq!(scalar_cell_value(&loader, &diff), Some(Fe::new(2)));
    assert_eq!(scalar_cell_value(&loader, &prod), Some(Fe::new(15)));
}

#[test]
fn unknown_witness_propagates() {
    let mut loader = fresh_loader();
    let unknown = loader.assign_scalar(None);
    let known = loader.load_const(&Fe::new(5));
    let sum = loader.add(&unknown, &known);
    assert_eq!(scalar_cell_value(&loader, &sum), None);
    let known_witness = loader.assign_scalar(Some(Fe::new(9)));
    let prod = loader.mul(&known_witness, &known);
    assert_eq!(scalar_cell_value(&loader, &prod), Some(Fe::new(45)));
}

#[test]
fn constant_point_caching_same_identity() {
    let mut loader = fresh_loader();
    let p = Pt::new(Fe::new(3), Fe::new(4));
    let offset_before = loader.ctx.offset;
    let h1 = loader.assign_const_ec_point(p);
    let h2 = loader.assign_const_ec_point(p);
    assert_eq!(h1.index, h2.index);
    assert_eq!(h1.assigned.cell, h2.assigned.cell);
    // Exactly one point assignment happened in total.
    assert_eq!(loader.ctx.offset, offset_before + 1);
    assert_eq!(loader.num_ec_point, 1);
    // A different point is assigned separately.
    let h3 = loader.assign_const_ec_point(Pt::new(Fe::new(3), Fe::new(5)));
    assert_ne!(h3.index, h1.index);
    assert_eq!(loader.num_ec_point, 2);
}

#[test]
fn msm_all_ones_is_iterated_addition() {
    let mut loader = fresh_loader();
    let q1 = Pt::new(Fe::new(2), Fe::new(3));
    let q2 = Pt::new(Fe::new(10), Fe::new(20));
    let q3 = Pt::new(Fe::new(7), Fe::new(250));
    let one = Fe::new(1);
    let p1 = loader.assign_ec_point(Some(q1));
    let p2 = loader.assign_ec_point(Some(q2));
    let p3 = loader.assign_ec_point(Some(q3));
    let s1 = loader.load_const(&one);
    let s2 = loader.load_const(&one);
    let s3 = loader.load_const(&one);
    let pairs = vec![(s1, p1), (s2, p2), (s3, p3)];
    let r = EcPoint::multi_scalar_multiplication(&mut loader, &pairs);
    let expected = q1.add(q2).add(q3);
    assert_eq!(point_cell_value(&loader, &r), Some(expected));

    // The same pairs in another order give the same group value.
    let mut loader2 = fresh_loader();
    let p1b = loader2.assign_ec_point(Some(q1));
    let p2b = loader2.assign_ec_point(Some(q2));
    let p3b = loader2.assign_ec_point(Some(q3));
    let t1 = loader2.load_const(&one);
    let t2 = loader2.load_const(&one);
    let t3 = loader2.load_const(&one);
    let pairs2 = vec![(t3, p3b), (t1, p1b), (t2, p2b)];
    let r2 = EcPoint::multi_scalar_multiplication(&mut loader2, &pairs2);
    assert_eq!(point_cell_value(&loader2, &r2), Some(expected));
}

#[test]
fn msm_mixed_scaled_and_unscaled() {
    let mut loader = fresh_loader();
    let p = Pt::new(Fe::new(5), Fe::new(6));
    let q = Pt::new(Fe::new(11), Fe::new(13));
    let hp = loader.assign_ec_point(Some(p));
    let hq = loader.assign_ec_point(Some(q));
    let s_one = loader.load_const(&Fe::new(1));
    let s_two = loader.load_const(&Fe::new(2));
    let pairs = vec![(s_one, hp), (s_two, hq)];
    let r = EcPoint::multi_scalar_multiplication(&mut loader, &pairs);
    // Reference computation on the toy group: 1*P + 2*Q.
    let expected = p.add(q.scale(Fe::new(2)));
    assert_eq!(point_cell_value(&loader, &r), Some(expected));
    // Same as P + Q + Q.
    assert_eq!(expected, p.add(q).add(q));
}

#[test]
fn msm_row_and_cell_accounting() {
    let mut loader = fresh_loader();
    let p = Pt::new(Fe::new(5), Fe::new(6));
    let q = Pt::new(Fe::new(11), Fe::new(13));
    let hp = loader.assign_ec_point(Some(p));
    let hq = loader.assign_ec_point(Some(q));
    let s_one = loader.load_const(&Fe::new(1));
    let s_two = loader.load_const(&Fe::new(2));
    let offset_before = loader.ctx.offset;
    let points_before = loader.ctx.point_cells.len();
    let scalars_before = loader.num_scalar;
    let pairs = vec![(s_one, hp), (s_two, hq)];
    EcPoint::multi_scalar_multiplication(&mut loader, &pairs);
    // One promotion (the constant two), one fused batch row, one pairwise
    // addition folding in the unscaled point, one normalization.
    assert_eq!(loader.ctx.offset, offset_before + 4);
    assert_eq!(loader.ctx.point_cells.len(), points_before + 3);
    assert_eq!(loader.num_scalar, scalars_before + 1);
}

#[test]
fn invert_assigned_value() {
    let mut loader = fresh_loader();
    let a = loader.assign_const_scalar(Fe::new(3));
    let inv = loader.invert(&a);
    assert!(matches!(inv.value, Value::Assigned(_)));
    assert_eq!(scalar_cell_value(&loader, &inv), Some(Fe::new(84)));
}

#[test]
fn msm_single_pair() {
    let mut loader = fresh_loader();
    let q = Pt::new(Fe::new(9), Fe::new(1));
    let hq = loader.assign_ec_point(Some(q));
    let s = loader.load_const(&Fe::new(4));
    let pairs = vec![(s, hq)];
    let r = EcPoint::multi_scalar_multiplication(&mut loader, &pairs);
    assert_eq!(point_cell_value(&loader, &r), Some(q.scale(Fe::new(4))));
}

#[test]
fn assert_eq_succeeds_on_equal_values() {
    let mut loader = fresh_loader();
    let a = loader.load_const(&Fe::new(8));
    let b = loader.assign_const_scalar(Fe::new(8));
    let r = loader.assert_eq("equal scalars".to_string(), &a, &b);
    assert!(r.is_ok());
}

#[test]
fn assert_eq_fails_with_annotation() {
    let mut loader = fresh_loader();
    let a = loader.load_const(&Fe::new(8));
    let b = loader.load_const(&Fe::new(9));
    let r = loader.assert_eq("mismatch".to_string(), &a, &b);
    assert_eq!(r, Err(Error::AssertionFailure("mismatch".to_string())));
}

#[test]
fn assert_eq_unknown_witness_is_ok() {
    let mut loader = fresh_loader();
    let a = loader.assign_scalar(None);
    let b = loader.load_const(&Fe::new(8));
    let r = loader.assert_eq("unknown".to_string(), &a, &b);
    assert!(r.is_ok());
}

#[test]
fn ec_point_assert_eq_both_ways() {
    let mut loader = fresh_loader();
    let p = Pt::new(Fe::new(1), Fe::new(2));
    let q = Pt::new(Fe::new(1), Fe::new(3));
    let hp1 = loader.assign_ec_point(Some(p));
    let hp2 = loader.assign_ec_point(Some(p));
    let hq = loader.assign_ec_point(Some(q));
    assert!(loader.ec_point_assert_eq("same point".to_string(), &hp1, &hp2).is_ok());
    let r = loader.ec_point_assert_eq("different points".to_string(), &hp1, &hq);
    assert_eq!(r, Err(Error::AssertionFailure("different points".to_string())));
}

#[test]
fn weighted_sum_capability() {
    let mut loader = fresh_loader();
    let s3 = loader.load_const(&Fe::new(3));
    let s5 = loader.assign_const_scalar(Fe::new(5));
    let values = vec![(Fe::new(2), s3), (Fe::new(3), s5)];
    let r = loader.sum_with_coeff_and_const(&values, Fe::new(4));
    // 4 + 2*3 + 3*5 = 25.
    assert_eq!(scalar_cell_value(&loader, &r), Some(Fe::new(25)));
}

#[test]
fn weighted_sum_of_products_capability() {
    let mut loader = fresh_loader();
    let s3 = loader.load_const(&Fe::new(3));
    let s5 = loader.load_const(&Fe::new(5));
    let values = vec![(Fe::new(2), s3, s5)];
    let r = loader.sum_products_with_coeff_and_const(&values, Fe::new(7));
    // 7 + 2*3*5 = 37.
    assert_eq!(scalar_cell_value(&loader, &r), Some(Fe::new(37)));
}

#[test]
fn lazy_promotion_keeps_handle_value() {
    let mut loader = fresh_loader();
    let c = loader.load_const(&Fe::new(6));
    let cells_before = loader.ctx.scalar_cells.len();
    let scalars_before = loader.num_scalar;
    let a = c.assigned(&mut loader);
    // Promotion assigned one fresh cell holding the constant and issued one
    // fresh identity, but the handle itself still folds.
    assert_eq!(loader.ctx.scalar_cells.len(), cells_before + 1);
    assert_eq!(loader.num_scalar, scalars_before + 1);
    assert_eq!(loader.ctx.scalar_cells[a.cell], Some(Fe::new(6)));
    assert!(matches!(c.value, Value::Constant(v) if v.n == 6));
}

#[test]
fn row_metering_nested_sections() {
    let mut loader = fresh_loader();
    loader.start_cost_metering("assignments".to_string());
    loader.assign_const_scalar(Fe::new(1));
    loader.assign_const_scalar(Fe::new(2));
    loader.end_cost_metering();
    let meterings = loader.row_meterings().clone();
    assert_eq!(meterings, vec![("assignments".to_string(), 2)]);
}

#[test]
fn into_ctx_returns_context() {
    let mut loader = fresh_loader();
    loader.assign_const_scalar(Fe::new(1));
    assert_eq!(loader.ctx().offset(), 1);
    let ctx = loader.into_ctx();
    assert_eq!(ctx.offset, 1);
    assert_eq!(ctx.scalar_cells.len(), 1);
}

#[test]
fn end_to_end_scenario() {
    let mut loader = fresh_loader();

    // Load constants 3 and 5, add them, and assert equality with 8.
    let three = loader.load_const(&Fe::new(3));
    let five = loader.load_const(&Fe::new(5));
    let sum = loader.add(&three, &five);
    let eight = loader.load_const(&Fe::new(8));
    assert!(loader.assert_eq("3 + 5 == 8".to_string(), &sum, &eight).is_ok());

    // Compute 1*P + 2*Q via the batched multi-scalar multiplication, with P
    // a witness and Q a constant point, and compare against the reference
    // computation P + Q + Q.
    let p = Pt::new(Fe::new(2), Fe::new(9));
    let q = Pt::new(Fe::new(4), Fe::new(7));
    let hp = loader.assign_ec_point(Some(p));
    let hq = loader.ec_point_load_const(&q);
    let one = loader.load_const(&Fe::new(1));
    let two = loader.load_const(&Fe::new(2));
    let pairs = vec![(one, hp), (two, hq)];
    let r = EcPoint::multi_scalar_multiplication(&mut loader, &pairs);
    let reference = p.add(q).add(q);
    let href = loader.assign_ec_point(Some(reference));
    assert!(loader.ec_point_assert_eq("msm matches reference".to_string(), &r, &href).is_ok());

    // Requesting the same constant point twice yields the same identity and
    // only one underlying assignment.
    let points_before = loader.ctx.point_cells.len();
    let hq2 = loader.ec_point_load_const(&q);
    assert_eq!(hq2.index, hq.index);
    assert_eq!(loader.ctx.point_cells.len(), points_before);
}
