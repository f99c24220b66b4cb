use raytracer::kdtree::{
    compare_range_with_plane, greater_or_equal, less_than, total_order_key, Axis, TreeNode,
    Partition, RangePlaneComparison, TriangleCoords, LEAF_THRESHOLD,
};

fn coords(p: [[f32; 3]; 3]) -> TriangleCoords {
    let mut positions = [[0u32; 3]; 3];
    let mut centroid = [0u32; 3];
    for a in 0..3 {
        for v in 0..3 {
            positions[v][a] = p[v][a].to_bits();
        }
        centroid[a] = ((p[0][a] + p[1][a] + p[2][a]) / 3.0).to_bits();
    }
    TriangleCoords { positions, centroid }
}

/// A small triangle in the plane z = 0 whose x coordinates span [x, x + 0.5].
fn at_x(x: f32) -> TriangleCoords {
    coords([[x, 0.0, 0.0], [x + 0.5, 0.0, 0.0], [x, 1.0, 0.0]])
}

fn leaf_contents(p: &Partition, i: usize, out: &mut Vec<Vec<usize>>) {
    match p.node(i) {
        TreeNode::Leaf { items } => out.push(items.clone()),
        TreeNode::Internal { below, above, .. } => {
            assert!(*below < i && *above < i);
            leaf_contents(p, *below, out);
            leaf_contents(p, *above, out);
        }
    }
}

#[test]
fn axes_go_round() {
    assert_eq!(Axis::X.next(), Axis::Y);
    assert_eq!(Axis::Y.next(), Axis::Z);
    assert_eq!(Axis::Z.next(), Axis::X);
    assert_eq!(Axis::X.as_index(), 0);
    assert_eq!(Axis::Y.as_index(), 1);
    assert_eq!(Axis::Z.as_index(), 2);
}

#[test]
fn comparisons_follow_ieee() {
    let cases: [(f32, f32); 8] = [
        (1.0, 2.0),
        (2.0, 1.0),
        (-3.5, -1.0),
        (-1.0, 0.5),
        (0.0, -0.0),
        (-0.0, 0.0),
        (f32::NEG_INFINITY, f32::MIN),
        (f32::MAX, f32::INFINITY),
    ];
    for (a, b) in cases {
        assert_eq!(less_than(a.to_bits(), b.to_bits()), a < b, "{} < {}", a, b);
        assert_eq!(greater_or_equal(a.to_bits(), b.to_bits()), a >= b, "{} >= {}", a, b);
    }
}

#[test]
fn nan_compares_false() {
    let nan = f32::NAN.to_bits();
    let one = 1.0f32.to_bits();
    assert!(!less_than(nan, one));
    assert!(!less_than(one, nan));
    assert!(!greater_or_equal(nan, one));
    assert!(!greater_or_equal(one, nan));
}

#[test]
fn total_order_key_follows_total_cmp() {
    let values: [f32; 9] = [f32::NEG_INFINITY, -2.0, -1.0, -0.0, 0.0, 1.0e-30, 1.0, 3.0, f32::INFINITY];
    for a in values {
        for b in values {
            assert_eq!(
                total_order_key(a.to_bits()).cmp(&total_order_key(b.to_bits())),
                a.total_cmp(&b)
            );
        }
    }
    assert!(total_order_key((-0.0f32).to_bits()) < total_order_key(0.0f32.to_bits()));
}

#[test]
fn range_against_plane_has_four_cases() {
    let s = 1.0f32.to_bits();
    let lo = 0.5f32.to_bits();
    let hi = 2.0f32.to_bits();
    assert_eq!(compare_range_with_plane(lo, lo, s), Some(RangePlaneComparison::BelowPlane));
    assert_eq!(compare_range_with_plane(hi, s, s), Some(RangePlaneComparison::AbovePlane));
    assert_eq!(compare_range_with_plane(lo, hi, s), Some(RangePlaneComparison::BelowToAbove));
    assert_eq!(compare_range_with_plane(hi, lo, s), Some(RangePlaneComparison::AboveToBelow));
    assert_eq!(compare_range_with_plane(f32::NAN.to_bits(), lo, s), None);
}

#[test]
fn empty_list_gives_one_empty_leaf() {
    let p = Partition::new(&Vec::new());
    assert_eq!(p.len(), 1);
    let root = p.node(p.root());
    assert!(root.is_leaf());
    match root {
        TreeNode::Leaf { items } => assert!(items.is_empty()),
        _ => panic!("expected a leaf"),
    }
}

#[test]
fn few_triangles_stay_in_one_leaf() {
    let tris: Vec<TriangleCoords> = (0..LEAF_THRESHOLD - 1).map(|i| at_x(i as f32)).collect();
    let p = Partition::new(&tris);
    assert_eq!(p.len(), 1);
    match p.node(p.root()) {
        TreeNode::Leaf { items } => {
            let expected: Vec<usize> = (0..LEAF_THRESHOLD - 1).collect();
            assert_eq!(*items, expected);
        }
        _ => panic!("expected a leaf"),
    }
}

#[test]
fn threshold_count_splits_at_the_median_centroid() {
    // Listed from right to left, so the order by centroid reverses the list.
    let n = LEAF_THRESHOLD;
    let tris: Vec<TriangleCoords> = (0..n).map(|i| at_x((n - 1 - i) as f32)).collect();
    let p = Partition::new(&tris);
    assert_eq!(p.len(), 3);
    let root = p.node(p.root());
    assert!(!root.is_leaf());
    match root {
        TreeNode::Internal { axis, split, below, above } => {
            assert_eq!(*axis, Axis::X);
            // The 65th smallest x is 64; its centroid is 64 + 1/6.
            let median = (64.0f32 + 64.5 + 64.0) / 3.0;
            assert_eq!(*split, median.to_bits());
            match (p.node(*below), p.node(*above)) {
                (TreeNode::Leaf { items: b }, TreeNode::Leaf { items: a }) => {
                    // x in 0 ..= 64 have a vertex below the split; x = 64 also
                    // reaches above it, so it is kept on both sides.
                    let expected_below: Vec<usize> = (0..=64).map(|x| n - 1 - x).collect();
                    let expected_above: Vec<usize> = (64..n).map(|x| n - 1 - x).collect();
                    assert_eq!(*b, expected_below);
                    assert_eq!(*a, expected_above);
                }
                _ => panic!("expected two leaves"),
            }
        }
        _ => panic!("expected an internal node"),
    }
}

#[test]
fn every_triangle_reaches_a_leaf() {
    let n = 1000usize;
    let tris: Vec<TriangleCoords> = (0..n)
        .map(|i| {
            let x = ((i * 37) % 101) as f32;
            let y = ((i * 53) % 97) as f32;
            let z = ((i * 71) % 89) as f32;
            coords([[x, y, z], [x + 1.5, y, z], [x, y + 1.5, z + 0.5]])
        })
        .collect();
    let p = Partition::new(&tris);
    let mut leaves = Vec::new();
    leaf_contents(&p, p.root(), &mut leaves);
    assert!(leaves.len() > 1);
    let mut seen = vec![false; n];
    for leaf in &leaves {
        assert!(leaf.len() < LEAF_THRESHOLD);
        for &t in leaf {
            seen[t] = true;
        }
    }
    assert!(seen.iter().all(|s| *s));
}

#[test]
fn rebuilding_gives_the_same_tree() {
    let tris: Vec<TriangleCoords> = (0..500).map(|i| at_x(((i * 13) % 250) as f32 * 0.25)).collect();
    let p = Partition::new(&tris);
    let q = Partition::new(&tris);
    let mut a = Vec::new();
    let mut b = Vec::new();
    leaf_contents(&p, p.root(), &mut a);
    leaf_contents(&q, q.root(), &mut b);
    assert_eq!(a, b);
}
