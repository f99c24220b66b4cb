use raytracer::bounds::AABB;

fn p(x: f32, y: f32, z: f32) -> [u32; 3] {
    [x.to_bits(), y.to_bits(), z.to_bits()]
}

fn unit_box() -> AABB {
    AABB::new(p(0.0, 0.0, 0.0), p(1.0, 1.0, 1.0))
}

#[test]
fn test_expand_positive_x() {
    let mut aabb = unit_box();
    aabb.expand(p(10.0, 0.0, 0.0));
    assert_eq!(aabb.min(), p(0.0, 0.0, 0.0));
    assert_eq!(aabb.max(), p(10.0, 1.0, 1.0));
}

#[test]
fn test_expand_negative_x() {
    let mut aabb = unit_box();
    aabb.expand(p(-10.0, 0.0, 0.0));
    assert_eq!(aabb.min(), p(-10.0, 0.0, 0.0));
    assert_eq!(aabb.max(), p(1.0, 1.0, 1.0));
}

#[test]
fn test_expand_positive_y() {
    let mut aabb = unit_box();
    aabb.expand(p(0.0, 10.0, 0.0));
    assert_eq!(aabb.min(), p(0.0, 0.0, 0.0));
    assert_eq!(aabb.max(), p(1.0, 10.0, 1.0));
}

#[test]
fn test_expand_negative_y() {
    let mut aabb = unit_box();
    aabb.expand(p(0.0, -10.0, 0.0));
    assert_eq!(aabb.min(), p(0.0, -10.0, 0.0));
    assert_eq!(aabb.max(), p(1.0, 1.0, 1.0));
}

#[test]
fn test_expand_positive_z() {
    let mut aabb = unit_box();
    aabb.expand(p(0.0, 0.0, 10.0));
    assert_eq!(aabb.min(), p(0.0, 0.0, 0.0));
    assert_eq!(aabb.max(), p(1.0, 1.0, 10.0));
}

#[test]
fn test_expand_negative_z() {
    let mut aabb = unit_box();
    aabb.expand(p(0.0, 0.0, -10.0));
    assert_eq!(aabb.min(), p(0.0, 0.0, -10.0));
    assert_eq!(aabb.max(), p(1.0, 1.0, 1.0));
}

#[test]
fn expand_passes_over_nan() {
    let mut aabb = unit_box();
    aabb.expand(p(f32::NAN, 5.0, -5.0));
    assert_eq!(aabb.min(), p(0.0, 0.0, -5.0));
    assert_eq!(aabb.max(), p(1.0, 5.0, 1.0));
}

#[test]
fn from_points_spans_the_points() {
    let points = vec![p(1.0, -2.0, 3.0), p(-4.0, 5.0, 0.5), p(2.0, 0.0, -6.0)];
    let b = AABB::from_points(&points);
    assert_eq!(b.min(), p(-4.0, -2.0, -6.0));
    assert_eq!(b.max(), p(2.0, 5.0, 3.0));
}

#[test]
fn from_points_of_nothing_is_inverted() {
    let b = AABB::from_points(&Vec::new());
    assert_eq!(b.min(), p(f32::MAX, f32::MAX, f32::MAX));
    assert_eq!(b.max(), p(f32::MIN, f32::MIN, f32::MIN));
}

#[test]
fn from_points_has_min_at_or_below_max() {
    let points = vec![p(3.0, 3.0, 3.0)];
    let b = AABB::from_points(&points);
    assert_eq!(b.min(), b.max());
    let many: Vec<[u32; 3]> = (0..50).map(|i| p((i * 7 % 13) as f32 - 6.0, (i % 5) as f32, -(i as f32))).collect();
    let b = AABB::from_points(&many);
    for a in 0..3 {
        assert!(f32::from_bits(b.min()[a]) <= f32::from_bits(b.max()[a]));
    }
}

#[test]
fn from_points_ignores_order() {
    let points = vec![p(1.0, 7.0, -3.0), p(-2.0, 0.0, 4.0), p(5.0, -1.0, 0.0), p(0.0, 2.0, 2.0)];
    let mut reversed = points.clone();
    reversed.reverse();
    let a = AABB::from_points(&points);
    let b = AABB::from_points(&reversed);
    assert_eq!(a.min(), b.min());
    assert_eq!(a.max(), b.max());
    assert_eq!(a.min(), p(-2.0, -1.0, -3.0));
    assert_eq!(a.max(), p(5.0, 7.0, 4.0));
}
