//! A binary spatial partition over triangles: each internal node splits
//! space by a plane normal to one axis, and a triangle that straddles the
//! plane is kept on both sides.
//!
//! Coordinates are IEEE-754 single-precision numbers, handled here by their
//! bit patterns: the order that the partition needs is computed from the bits.
use vstd::prelude::*;

verus! {

/// Fewer triangles than this stay together in one leaf.
pub const LEAF_THRESHOLD: usize = 128;

/// Nodes at this depth are leaves whatever they hold. This bounds the depth
/// of the tree, and so the size of a traversal stack, where the triangles
/// cannot be told apart along any axis.
pub const MAX_DEPTH: usize = 64;

/// A coordinate axis. Splits go round: X, then Y, then Z, then X again.
#[derive(Clone, Copy, PartialEq, Eq, Structural, Debug)]
pub enum Axis {
    X,
    Y,
    Z,
}

impl Axis {
    pub open spec fn spec_next(self) -> Axis {
        match self {
            Axis::X => Axis::Y,
            Axis::Y => Axis::Z,
            Axis::Z => Axis::X,
        }
    }

    pub open spec fn spec_index(self) -> nat {
        match self {
            Axis::X => 0,
            Axis::Y => 1,
            Axis::Z => 2,
        }
    }

    /// The axis that the children of a node split along.
    pub fn next(&self) -> (r: Axis)
        ensures
            r == self.spec_next(),
    {
        match self {
            Axis::X => Axis::Y,
            Axis::Y => Axis::Z,
            Axis::Z => Axis::X,
        }
    }

    /// The component of a point that this axis selects.
    pub fn as_index(&self) -> (r: usize)
        ensures
            r == self.spec_index(),
    {
        match self {
            Axis::X => 0,
            Axis::Y => 1,
            Axis::Z => 2,
        }
    }
}

/// The sign bit of a single-precision number.
pub const SIGN_BIT: u32 = 0x8000_0000;

/// The bits of positive infinity; larger magnitudes are NaN.
pub const INFINITY_BITS: u32 = 0x7f80_0000;

/// Whether the bits encode a NaN.
pub open spec fn is_nan(bits: u32) -> bool {
    bits % SIGN_BIT > INFINITY_BITS
}

/// The place of a number that is not NaN on the line of all such numbers:
/// the magnitude bits grow with the magnitude, and the sign bit flips them.
/// Both zeros land on 0, as they compare equal.
pub open spec fn line_position(bits: u32) -> int {
    if bits >= SIGN_BIT {
        -((bits - SIGN_BIT) as int)
    } else {
        bits as int
    }
}

/// `a < b` on the numbers the bits encode; false where either is NaN.
pub open spec fn float_lt(a: u32, b: u32) -> bool {
    !is_nan(a) && !is_nan(b) && line_position(a) < line_position(b)
}

/// `a >= b` on the numbers the bits encode; false where either is NaN.
pub open spec fn float_ge(a: u32, b: u32) -> bool {
    !is_nan(a) && !is_nan(b) && line_position(a) >= line_position(b)
}

/// The key of the total order on all bit patterns that `f32::total_cmp`
/// documents: negative numbers below `-0.0`, below `+0.0`, below positive
/// numbers, with NaNs at both ends according to their sign.
pub open spec fn total_key(bits: u32) -> int {
    if bits >= SIGN_BIT {
        -((bits - SIGN_BIT) as int) - 1
    } else {
        bits as int
    }
}

/// Computes `a < b` on the numbers that the bits encode.
pub fn less_than(a: u32, b: u32) -> (r: bool)
    ensures
        r == float_lt(a, b),
{
    if a % SIGN_BIT > INFINITY_BITS || b % SIGN_BIT > INFINITY_BITS {
        return false;
    }
    let pa: i64 = if a >= SIGN_BIT { -((a - SIGN_BIT) as i64) } else { a as i64 };
    let pb: i64 = if b >= SIGN_BIT { -((b - SIGN_BIT) as i64) } else { b as i64 };
    pa < pb
}

/// Computes `a >= b` on the numbers that the bits encode.
pub fn greater_or_equal(a: u32, b: u32) -> (r: bool)
    ensures
        r == float_ge(a, b),
{
    if a % SIGN_BIT > INFINITY_BITS || b % SIGN_BIT > INFINITY_BITS {
        return false;
    }
    let pa: i64 = if a >= SIGN_BIT { -((a - SIGN_BIT) as i64) } else { a as i64 };
    let pb: i64 = if b >= SIGN_BIT { -((b - SIGN_BIT) as i64) } else { b as i64 };
    pa >= pb
}

/// Computes the `total_cmp` key of a bit pattern.
pub fn total_order_key(bits: u32) -> (r: i64)
    ensures
        r == total_key(bits),
{
    if bits >= SIGN_BIT {
        -((bits - SIGN_BIT) as i64) - 1
    } else {
        bits as i64
    }
}

/// The bits of a triangle's three vertex positions, `positions[v][axis]`, and
/// of its centroid, `centroid[axis]`.
#[derive(Clone, Copy)]
pub struct TriangleCoords {
    pub positions: [[u32; 3]; 3],
    pub centroid: [u32; 3],
}

/// Coordinate `a` of vertex `v`.
pub open spec fn vertex_coord(tri: TriangleCoords, v: int, a: int) -> u32 {
    tri.positions@[v]@[a]
}

/// Some vertex lies strictly below the plane `axis = split`.
pub open spec fn goes_below(tri: TriangleCoords, axis: Axis, split: u32) -> bool {
    let a = axis.spec_index() as int;
    float_lt(vertex_coord(tri, 0, a), split) || float_lt(vertex_coord(tri, 1, a), split)
        || float_lt(vertex_coord(tri, 2, a), split)
}

/// Some vertex lies on or above the plane `axis = split`.
pub open spec fn goes_above(tri: TriangleCoords, axis: Axis, split: u32) -> bool {
    let a = axis.spec_index() as int;
    float_ge(vertex_coord(tri, 0, a), split) || float_ge(vertex_coord(tri, 1, a), split)
        || float_ge(vertex_coord(tri, 2, a), split)
}

/// Whether a triangle belongs to the child below the plane `axis = split`.
pub fn is_below(tri: &TriangleCoords, axis: Axis, split: u32) -> (r: bool)
    ensures
        r == goes_below(*tri, axis, split),
{
    let a = axis.as_index();
    less_than(tri.positions[0][a], split) || less_than(tri.positions[1][a], split)
        || less_than(tri.positions[2][a], split)
}

/// Whether a triangle belongs to the child on or above the plane `axis = split`.
pub fn is_above(tri: &TriangleCoords, axis: Axis, split: u32) -> (r: bool)
    ensures
        r == goes_above(*tri, axis, split),
{
    let a = axis.as_index();
    greater_or_equal(tri.positions[0][a], split) || greater_or_equal(tri.positions[1][a], split)
        || greater_or_equal(tri.positions[2][a], split)
}

/// Which children of an internal node a ray interval visits, nearest first.
#[derive(Clone, Copy, PartialEq, Eq, Structural, Debug)]
pub enum RangePlaneComparison {
    /// The whole interval lies below the plane.
    BelowPlane,
    /// The whole interval lies on or above the plane.
    AbovePlane,
    /// The interval starts below the plane and ends on or above it.
    BelowToAbove,
    /// The interval starts on or above the plane and ends below it.
    AboveToBelow,
}

/// Places an interval whose ends sit at coordinates `start` and `end` along
/// the split axis against the plane at `split`. Where a NaN makes every
/// comparison false, there is no answer.
pub fn compare_range_with_plane(start: u32, end: u32, split: u32) -> (r: Option<RangePlaneComparison>)
    ensures
        r == (if float_lt(start, split) && float_lt(end, split) {
            Some(RangePlaneComparison::BelowPlane)
        } else if float_ge(start, split) && float_ge(end, split) {
            Some(RangePlaneComparison::AbovePlane)
        } else if float_lt(start, split) && float_ge(end, split) {
            Some(RangePlaneComparison::BelowToAbove)
        } else if float_ge(start, split) && float_lt(end, split) {
            Some(RangePlaneComparison::AboveToBelow)
        } else {
            None
        }),
{
    let start_below = less_than(start, split);
    let start_above = greater_or_equal(start, split);
    let end_below = less_than(end, split);
    let end_above = greater_or_equal(end, split);
    if start_below && end_below {
        Some(RangePlaneComparison::BelowPlane)
    } else if start_above && end_above {
        Some(RangePlaneComparison::AbovePlane)
    } else if start_below && end_above {
        Some(RangePlaneComparison::BelowToAbove)
    } else if start_above && end_below {
        Some(RangePlaneComparison::AboveToBelow)
    } else {
        None
    }
}

/// A node of the partition. Children are stored before their parent in the
/// node list, so a node's children have smaller indices than it has.
pub enum TreeNode {
    /// Indices of the triangles kept in this leaf.
    Leaf { items: Vec<usize> },
    /// A split by the plane `axis = split`, with the children that hold the
    /// triangles below it and those on or above it.
    Internal { axis: Axis, split: u32, below: usize, above: usize },
}

impl TreeNode {
    /// Whether this node is a leaf, empty or not.
    pub fn is_leaf(&self) -> (r: bool)
        ensures
            r == (*self is Leaf),
    {
        match self {
            TreeNode::Leaf { .. } => true,
            TreeNode::Internal { .. } => false,
        }
    }
}

/// The `total_cmp` key of a triangle's centroid coordinate along `axis`.
pub open spec fn centroid_key(tri: TriangleCoords, axis: Axis) -> int {
    total_key(tri.centroid@[axis.spec_index() as int])
}

/// The subtree at node `i` is the partition of the triangles `held`, split
/// first along `axis`, with its top at depth `depth`.
///
/// A leaf holds exactly `held`, each triangle once, and stands either where
/// fewer than `LEAF_THRESHOLD` triangles are left or at depth `MAX_DEPTH`. An
/// internal node holds at least `LEAF_THRESHOLD` triangles and splits along
/// `axis` at the median centroid coordinate: that of one of its triangles,
/// with at most half of them strictly before it and more than half at or
/// before it in the `total_cmp` order. The triangles with a vertex strictly below the
/// plane go to the child below and those with a vertex on or above it go to
/// the child above, so a straddling triangle goes to both. The children
/// split along the next axis.
pub open spec fn subtree_holds(
    nodes: Seq<TreeNode>,
    tris: Seq<TriangleCoords>,
    i: int,
    held: Set<usize>,
    axis: Axis,
    depth: nat,
) -> bool
    decreases i,
{
    if 0 <= i < nodes.len() {
        match nodes[i] {
            TreeNode::Leaf { items } => {
                &&& items@.len() < LEAF_THRESHOLD || depth >= MAX_DEPTH
                &&& items@.no_duplicates()
                &&& forall|t: usize| #[trigger] items@.contains(t) <==> held.contains(t)
            },
            TreeNode::Internal { axis: a, split, below, above } => {
                &&& a == axis
                &&& depth < MAX_DEPTH
                &&& held.len() >= LEAF_THRESHOLD
                &&& below < i
                &&& above < i
                &&& exists|m: usize|
                    #[trigger] held.contains(m) && tris[m as int].centroid@[a.spec_index() as int]
                        == split
                &&& held.filter(|t: usize| centroid_key(tris[t as int], a) < total_key(split)).len()
                    <= held.len() / 2
                &&& held.filter(|t: usize| centroid_key(tris[t as int], a) <= total_key(split)).len()
                    > held.len() / 2
                &&& subtree_holds(
                    nodes,
                    tris,
                    below as int,
                    held.filter(|t: usize| goes_below(tris[t as int], a, split)),
                    axis.spec_next(),
                    depth + 1,
                )
                &&& subtree_holds(
                    nodes,
                    tris,
                    above as int,
                    held.filter(|t: usize| goes_above(tris[t as int], a, split)),
                    axis.spec_next(),
                    depth + 1,
                )
            },
        }
    } else {
        false
    }
}

/// Nodes added after a subtree was built leave it as it was.
proof fn lemma_subtree_holds_extend(
    nodes: Seq<TreeNode>,
    more: Seq<TreeNode>,
    tris: Seq<TriangleCoords>,
    i: int,
    held: Set<usize>,
    axis: Axis,
    depth: nat,
)
    requires
        subtree_holds(nodes, tris, i, held, axis, depth),
        nodes.len() <= more.len(),
        more.subrange(0, nodes.len() as int) == nodes,
    ensures
        subtree_holds(more, tris, i, held, axis, depth),
    decreases i,
{
    assert(more[i] == more.subrange(0, nodes.len() as int)[i]);
    match nodes[i] {
        TreeNode::Leaf { .. } => {},
        TreeNode::Internal { axis: a, split, below, above } => {
            lemma_subtree_holds_extend(
                nodes,
                more,
                tris,
                below as int,
                held.filter(|t: usize| goes_below(tris[t as int], a, split)),
                axis.spec_next(),
                depth + 1,
            );
            lemma_subtree_holds_extend(
                nodes,
                more,
                tris,
                above as int,
                held.filter(|t: usize| goes_above(tris[t as int], a, split)),
                axis.spec_next(),
                depth + 1,
            );
        },
    }
}

/// Lexicographic order on (key, position) pairs.
pub open spec fn pair_le(p: (i64, usize), q: (i64, usize)) -> bool {
    p.0 < q.0 || (p.0 == q.0 && p.1 <= q.1)
}

/// Relies on `slice::sort_unstable`, which sorts by the tuples' `Ord`
/// (lexicographic) and only rearranges the elements.
#[verifier::external_body]
fn sort_pairs(v: &mut Vec<(i64, usize)>)
    ensures
        final(v)@.to_multiset() == old(v)@.to_multiset(),
        forall|i: int, j: int|
            0 <= i < j < final(v)@.len() ==> pair_le(#[trigger] final(v)@[i], #[trigger] final(v)@[j]),
{
    v.sort_unstable();
}

/// Some entry among the first `k` of `order` names the position in `items`
/// where `x` stands.
pub open spec fn among_first(items: Seq<usize>, order: Seq<(i64, usize)>, k: int, x: usize) -> bool {
    exists|j: int| 0 <= j < k && x == items[#[trigger] order[j].1 as int]
}

proof fn lemma_among_first_step(items: Seq<usize>, order: Seq<(i64, usize)>, k: int, x: usize)
    requires
        0 <= k,
    ensures
        among_first(items, order, k + 1, x) <==> (among_first(items, order, k, x) || x
            == items[order[k].1 as int]),
{
    if among_first(items, order, k + 1, x) {
        let j = choose|j: int| 0 <= j < k + 1 && x == items[#[trigger] order[j].1 as int];
        if j < k {
            assert(among_first(items, order, k, x));
        }
    }
    if among_first(items, order, k, x) {
        let j = choose|j: int| 0 <= j < k && x == items[#[trigger] order[j].1 as int];
        assert(0 <= j < k + 1 && x == items[order[j].1 as int]);
    }
    if x == items[order[k].1 as int] {
        assert(0 <= k < k + 1 && x == items[order[k].1 as int]);
    }
}

proof fn lemma_contains_after_push(before: Seq<usize>, t: usize, x: usize)
    ensures
        before.push(t).contains(x) <==> (before.contains(x) || x == t),
{
    let after = before.push(t);
    if after.contains(x) {
        let i = choose|i: int| 0 <= i < after.len() && after[i] == x;
        if i < before.len() {
            assert(before[i] == x);
        }
    }
    if before.contains(x) {
        let i = choose|i: int| 0 <= i < before.len() && before[i] == x;
        assert(after[i] == x);
    }
    if x == t {
        assert(after[before.len() as int] == x);
    }
}

proof fn lemma_push_keeps_no_duplicates(before: Seq<usize>, t: usize)
    requires
        before.no_duplicates(),
        !before.contains(t),
    ensures
        before.push(t).no_duplicates(),
{
    let after = before.push(t);
    assert forall|i: int, j: int| 0 <= i < after.len() && 0 <= j < after.len() && i != j implies after[i]
        != after[j] by {
        if i < before.len() && j < before.len() {
            assert(after[i] == before[i] && after[j] == before[j]);
        } else if i < before.len() {
            assert(after[i] == before[i]);
        } else {
            assert(after[j] == before[j]);
        }
    }
}

impl TreeNode {
    /// Builds the subtree over the triangles `items` (indices into `tris`),
    /// splitting first along `axis`, appends its nodes to `nodes` and returns
    /// the index of its top node, which is the last one appended.
    ///
    /// The triangles are ordered by the centroid coordinate along `axis`, as
    /// `f32::total_cmp` orders it, keeping their order where coordinates are
    /// equal; the split is the centroid coordinate of the middle one, and each
    /// child receives its triangles in that order.
    pub fn build_node(
        tris: &Vec<TriangleCoords>,
        items: Vec<usize>,
        axis: Axis,
        depth: usize,
        nodes: &mut Vec<TreeNode>,
    ) -> (r: usize)
        requires
            depth <= MAX_DEPTH,
            items@.no_duplicates(),
            forall|k: int| 0 <= k < items@.len() ==> #[trigger] items@[k] < tris@.len(),
        ensures
            old(nodes)@.len() <= r,
            r + 1 == final(nodes)@.len(),
            final(nodes)@.subrange(0, old(nodes)@.len() as int) == old(nodes)@,
            subtree_holds(final(nodes)@, tris@, r as int, items@.to_set(), axis, depth as nat),
        decreases MAX_DEPTH - depth,
    {
        if items.len() < LEAF_THRESHOLD || depth >= MAX_DEPTH {
            nodes.push(TreeNode::Leaf { items });
            let r = nodes.len() - 1;
            proof {
                assert(final(nodes)@.subrange(0, old(nodes)@.len() as int) =~= old(nodes)@);
                assert(final(nodes)@[r as int] == TreeNode::Leaf { items });
            }
            return r;
        }
        let a = axis.as_index();
        let n = items.len();
        let mut keyed: Vec<(i64, usize)> = Vec::with_capacity(n);
        let mut p: usize = 0;
        while p < n
            invariant
                p <= n,
                n == items@.len(),
                a == axis.spec_index(),
                keyed@.len() == p,
                forall|k: int| 0 <= k < items@.len() ==> #[trigger] items@[k] < tris@.len(),
                forall|q: int|
                    0 <= q < p ==> #[trigger] keyed@[q] == (
                        centroid_key(tris@[items@[q] as int], axis) as i64,
                        q as usize,
                    ),
            decreases n - p,
        {
            let c = tris[items[p]].centroid[a];
            keyed.push((total_order_key(c), p));
            p += 1;
        }
        let ghost unsorted = keyed@;
        sort_pairs(&mut keyed);
        proof {
            assert forall|i: int, j: int| 0 <= i < n && 0 <= j < n && i != j implies unsorted[i]
                != unsorted[j] by {
                assert(unsorted[i].1 == i && unsorted[j].1 == j);
            }
            unsorted.lemma_multiset_has_no_duplicates();
            assert forall|x: (i64, usize)| keyed@.to_multiset().contains(x) implies keyed@.to_multiset().count(x) == 1 by {
                assert(unsorted.to_multiset().contains(x));
            }
            keyed@.lemma_multiset_has_no_duplicates_conv();
            assert(keyed@.len() == n) by {
                vstd::seq_lib::to_multiset_len(keyed@);
                vstd::seq_lib::to_multiset_len(unsorted);
            }
            assert forall|j: int| 0 <= j < n implies #[trigger] keyed@[j] == unsorted[keyed@[j].1 as int]
                && keyed@[j].1 < n by {
                assert(keyed@.contains(keyed@[j]));
                vstd::seq_lib::to_multiset_contains(keyed@, keyed@[j]);
                vstd::seq_lib::to_multiset_contains(unsorted, keyed@[j]);
                let q = choose|q: int| 0 <= q < n && unsorted[q] == keyed@[j];
            }
        }
        let half = n / 2;
        let m = keyed[half].1;
        let split = tris[items[m]].centroid[a];
        let mut below: Vec<usize> = Vec::new();
        let mut above: Vec<usize> = Vec::new();
        let mut k: usize = 0;
        while k < n
            invariant
                k <= n,
                n == items@.len(),
                keyed@.len() == n,
                items@.no_duplicates(),
                keyed@.no_duplicates(),
                forall|j: int| 0 <= j < n ==> #[trigger] keyed@[j] == unsorted[keyed@[j].1 as int]
                    && keyed@[j].1 < n,
                forall|k: int| 0 <= k < items@.len() ==> #[trigger] items@[k] < tris@.len(),
                forall|x: usize|
                    #[trigger] below@.contains(x) <==> (among_first(items@, keyed@, k as int, x)
                        && goes_below(tris@[x as int], axis, split)),
                forall|x: usize|
                    #[trigger] above@.contains(x) <==> (among_first(items@, keyed@, k as int, x)
                        && goes_above(tris@[x as int], axis, split)),
                below@.no_duplicates(),
                above@.no_duplicates(),
                forall|j: int| 0 <= j < below@.len() ==> #[trigger] below@[j] < tris@.len(),
                forall|j: int| 0 <= j < above@.len() ==> #[trigger] above@[j] < tris@.len(),
            decreases n - k,
        {
            let t = items[keyed[k].1];
            let ghost below_before = below@;
            let ghost above_before = above@;
            proof {
                if among_first(items@, keyed@, k as int, t) {
                    let j = choose|j: int| 0 <= j < k && t == items@[#[trigger] keyed@[j].1 as int];
                    assert(keyed@[j] == unsorted[keyed@[j].1 as int]);
                    assert(keyed@[k as int] == unsorted[keyed@[k as int].1 as int]);
                    assert(keyed@[j].1 == keyed@[k as int].1);
                }
            }
            let goes_up = is_above(&tris[t], axis, split);
            if goes_up {
                proof {
                    lemma_push_keeps_no_duplicates(above@, t);
                }
                above.push(t);
            }
            let goes_down = is_below(&tris[t], axis, split);
            if goes_down {
                proof {
                    lemma_push_keeps_no_duplicates(below@, t);
                }
                below.push(t);
            }
            proof {
                assert forall|x: usize|
                    #[trigger] below@.contains(x) <==> (among_first(items@, keyed@, k + 1, x)
                        && goes_below(tris@[x as int], axis, split)) by {
                    lemma_among_first_step(items@, keyed@, k as int, x);
                    lemma_contains_after_push(below_before, t, x);
                }
                assert forall|x: usize|
                    #[trigger] above@.contains(x) <==> (among_first(items@, keyed@, k + 1, x)
                        && goes_above(tris@[x as int], axis, split)) by {
                    lemma_among_first_step(items@, keyed@, k as int, x);
                    lemma_contains_after_push(above_before, t, x);
                }
            }
            k += 1;
        }
        let ghost held = items@.to_set();
        let ghost held_below = held.filter(|t: usize| goes_below(tris@[t as int], axis, split));
        let ghost held_above = held.filter(|t: usize| goes_above(tris@[t as int], axis, split));
        proof {
            assert forall|x: usize| held.contains(x) implies #[trigger] among_first(
                items@,
                keyed@,
                n as int,
                x,
            ) by {
                let q = choose|q: int| 0 <= q < n && items@[q] == x;
                assert(unsorted[q].1 == q);
                assert(unsorted.contains(unsorted[q]));
                vstd::seq_lib::to_multiset_contains(keyed@, unsorted[q]);
                vstd::seq_lib::to_multiset_contains(unsorted, unsorted[q]);
                let j = choose|j: int| 0 <= j < n && keyed@[j] == unsorted[q];
                assert(x == items@[keyed@[j].1 as int]);
            }
            assert forall|x: usize| #[trigger] among_first(items@, keyed@, n as int, x) implies held.contains(
                x,
            ) by {
                let j = choose|j: int| 0 <= j < n && x == items@[#[trigger] keyed@[j].1 as int];
                assert(items@.contains(items@[keyed@[j].1 as int]));
            }
            assert(below@.to_set() =~= held_below);
            assert(above@.to_set() =~= held_above);
            assert(held.contains(items@[m as int]));
            lemma_median_rank(tris@, items@, keyed@, unsorted, axis, split);
        }
        let ghost nodes0 = nodes@;
        let next = axis.next();
        let below_index = TreeNode::build_node(tris, below, next, depth + 1, nodes);
        let ghost nodes1 = nodes@;
        let above_index = TreeNode::build_node(tris, above, next, depth + 1, nodes);
        let ghost nodes2 = nodes@;
        nodes.push(TreeNode::Internal { axis, split, below: below_index, above: above_index });
        let r = nodes.len() - 1;
        proof {
            let nodes3 = nodes@;
            assert(nodes3.subrange(0, nodes2.len() as int) =~= nodes2);
            assert(nodes3.subrange(0, nodes1.len() as int) =~= nodes1);
            assert(nodes3.subrange(0, nodes0.len() as int) =~= nodes0);
            lemma_subtree_holds_extend(
                nodes1,
                nodes3,
                tris@,
                below_index as int,
                held_below,
                next,
                (depth + 1) as nat,
            );
            lemma_subtree_holds_extend(
                nodes2,
                nodes3,
                tris@,
                above_index as int,
                held_above,
                next,
                (depth + 1) as nat,
            );
            assert(nodes3[r as int] == TreeNode::Internal {
                axis,
                split,
                below: below_index,
                above: above_index,
            });
        }
        r
    }
}

/// The triangle at sorted position `j`.
spec fn sorted_item(items: Seq<usize>, keyed: Seq<(i64, usize)>, j: int) -> usize {
    items[keyed[j].1 as int]
}

/// After sorting, the centroid key at the middle position has at most half
/// of the triangles strictly before it and more than half at or before it.
proof fn lemma_median_rank(
    tris: Seq<TriangleCoords>,
    items: Seq<usize>,
    keyed: Seq<(i64, usize)>,
    unsorted: Seq<(i64, usize)>,
    axis: Axis,
    split: u32,
)
    requires
        items.len() >= 1,
        items.no_duplicates(),
        keyed.len() == items.len(),
        keyed.no_duplicates(),
        unsorted.len() == items.len(),
        forall|q: int|
            0 <= q < items.len() ==> #[trigger] unsorted[q] == (
                centroid_key(tris[items[q] as int], axis) as i64,
                q as usize,
            ),
        forall|j: int| 0 <= j < keyed.len() ==> #[trigger] keyed[j] == unsorted[keyed[j].1 as int]
            && keyed[j].1 < items.len(),
        forall|i: int, j: int|
            0 <= i < j < keyed.len() ==> pair_le(#[trigger] keyed[i], #[trigger] keyed[j]),
        forall|x: usize| items.to_set().contains(x) ==> #[trigger] among_first(items, keyed, items.len() as int, x),
        tris[sorted_item(items, keyed, items.len() as int / 2) as int].centroid@[axis.spec_index() as int] == split,
    ensures
        items.to_set().len() == items.len(),
        items.to_set().filter(|t: usize| centroid_key(tris[t as int], axis) < total_key(split)).len()
            <= items.to_set().len() / 2,
        items.to_set().filter(|t: usize| centroid_key(tris[t as int], axis) <= total_key(split)).len()
            > items.to_set().len() / 2,
{
    let n = items.len() as int;
    let half = n / 2;
    let held = items.to_set();
    items.unique_seq_to_set();
    let sk = total_key(split);
    // The key stored with each sorted entry is that of its triangle.
    assert forall|j: int| 0 <= j < n implies #[trigger] keyed[j].0 == centroid_key(
        tris[sorted_item(items, keyed, j) as int],
        axis,
    ) by {
        assert(keyed[j] == unsorted[keyed[j].1 as int]);
    }
    assert(keyed[half].0 == sk);
    let below = held.filter(|t: usize| centroid_key(tris[t as int], axis) < sk);
    let upto = held.filter(|t: usize| centroid_key(tris[t as int], axis) <= sk);
    let front = Seq::new(half as nat, |j: int| sorted_item(items, keyed, j));
    let front_inclusive = Seq::new((half + 1) as nat, |j: int| sorted_item(items, keyed, j));
    // Strictly smaller keys sit before the middle position.
    assert forall|t: usize| below.contains(t) implies front.to_set().contains(t) by {
        assert(among_first(items, keyed, n, t));
        let j = choose|j: int| 0 <= j < n && t == items[#[trigger] keyed[j].1 as int];
        if j >= half {
            if j > half {
                assert(pair_le(keyed[half], keyed[j]));
            }
            assert(keyed[j].0 == centroid_key(tris[sorted_item(items, keyed, j) as int], axis));
        }
        assert(front[j] == t);
    }
    front.lemma_cardinality_of_set();
    vstd::set_lib::lemma_len_subset(below, front.to_set());
    // Keys up to the middle position are at most the middle key.
    assert forall|i: int, j: int|
        0 <= i < front_inclusive.len() && 0 <= j < front_inclusive.len() && i != j implies front_inclusive[i]
        != front_inclusive[j] by {
        if front_inclusive[i] == front_inclusive[j] {
            assert(keyed[i].1 < n && keyed[j].1 < n);
            assert(keyed[i].1 == keyed[j].1);
            assert(keyed[i] == unsorted[keyed[i].1 as int]);
            assert(keyed[j] == unsorted[keyed[j].1 as int]);
        }
    }
    front_inclusive.unique_seq_to_set();
    assert forall|t: usize| front_inclusive.to_set().contains(t) implies upto.contains(t) by {
        let j = choose|j: int| 0 <= j < front_inclusive.len() && front_inclusive[j] == t;
        assert(keyed[j].1 < n);
        assert(items.contains(items[keyed[j].1 as int]));
        if j < half {
            assert(pair_le(keyed[j], keyed[half]));
        }
        assert(keyed[j].0 == centroid_key(tris[sorted_item(items, keyed, j) as int], axis));
    }
    vstd::set_lib::lemma_len_subset(front_inclusive.to_set(), upto);
}

/// No coordinate of the triangle, nor of its centroid, is NaN.
pub open spec fn has_no_nan(tri: TriangleCoords) -> bool {
    &&& forall|v: int, a: int| 0 <= v < 3 && 0 <= a < 3 ==> !is_nan(#[trigger] vertex_coord(tri, v, a))
    &&& forall|a: int| 0 <= a < 3 ==> !is_nan(#[trigger] tri.centroid@[a])
}

/// Some leaf under node `i` holds triangle `t`.
pub open spec fn leaves_hold(nodes: Seq<TreeNode>, i: int, t: usize) -> bool
    decreases i,
{
    if 0 <= i < nodes.len() {
        match nodes[i] {
            TreeNode::Leaf { items } => items@.contains(t),
            TreeNode::Internal { below, above, .. } => {
                ||| below < i && leaves_hold(nodes, below as int, t)
                ||| above < i && leaves_hold(nodes, above as int, t)
            },
        }
    } else {
        false
    }
}

proof fn lemma_leaves_hold_exactly(
    nodes: Seq<TreeNode>,
    tris: Seq<TriangleCoords>,
    i: int,
    held: Set<usize>,
    axis: Axis,
    depth: nat,
    t: usize,
)
    requires
        subtree_holds(nodes, tris, i, held, axis, depth),
        forall|u: usize| #[trigger] held.contains(u) ==> u < tris.len() && has_no_nan(tris[u as int]),
    ensures
        leaves_hold(nodes, i, t) <==> held.contains(t),
    decreases i,
{
    match nodes[i] {
        TreeNode::Leaf { .. } => {},
        TreeNode::Internal { axis: a, split, below, above } => {
            let held_below = held.filter(|u: usize| goes_below(tris[u as int], a, split));
            let held_above = held.filter(|u: usize| goes_above(tris[u as int], a, split));
            lemma_leaves_hold_exactly(nodes, tris, below as int, held_below, axis.spec_next(), depth + 1, t);
            lemma_leaves_hold_exactly(nodes, tris, above as int, held_above, axis.spec_next(), depth + 1, t);
            if held.contains(t) {
                let m = choose|m: usize|
                    #[trigger] held.contains(m) && tris[m as int].centroid@[a.spec_index() as int] == split;
                let ai = a.spec_index() as int;
                assert(!is_nan(split));
                assert(!is_nan(vertex_coord(tris[t as int], 0, ai)));
                assert(goes_below(tris[t as int], a, split) || goes_above(tris[t as int], a, split));
            }
        },
    }
}

/// Where no coordinate is NaN, the leaves of the partition hold every
/// triangle of the list and nothing else: a triangle is never lost at a
/// split, only kept on both sides of it.
pub proof fn lemma_partition_keeps_every_triangle(p: &Partition, tris: Seq<TriangleCoords>, t: usize)
    requires
        p.partitions(tris),
        forall|u: int| 0 <= u < tris.len() ==> #[trigger] has_no_nan(tris[u]),
    ensures
        leaves_hold(p.spec_nodes(), p.spec_root(), t) <==> t < tris.len(),
{
    let held = Set::new(|u: usize| u < tris.len());
    assert forall|u: usize| #[trigger] held.contains(u) implies u < tris.len() && has_no_nan(
        tris[u as int],
    ) by {
        assert(has_no_nan(tris[u as int]));
    }
    lemma_leaves_hold_exactly(p.spec_nodes(), tris, p.spec_root(), held, Axis::X, 0, t);
}

/// The partition of an empty list is one leaf that holds nothing, so a
/// query on it can find no triangle.
pub proof fn lemma_empty_list_gives_empty_leaf(p: &Partition)
    requires
        p.partitions(Seq::empty()),
    ensures
        p.spec_nodes()[p.spec_root()] is Leaf,
        p.spec_nodes()[p.spec_root()]->Leaf_items@.len() == 0,
{
    let held = Set::new(|u: usize| u < Seq::<TriangleCoords>::empty().len());
    assert(held =~= Set::empty());
    match p.spec_nodes()[p.spec_root()] {
        TreeNode::Leaf { items } => {
            if items@.len() > 0 {
                assert(items@.contains(items@[0]));
            }
        },
        TreeNode::Internal { .. } => {},
    }
}

/// The subtrees at node `i` of `nodes` and node `j` of `other` have the same
/// shape, the same splits, and leaves that hold the same triangles.
pub open spec fn same_tree(nodes: Seq<TreeNode>, i: int, other: Seq<TreeNode>, j: int) -> bool
    decreases i,
{
    if 0 <= i < nodes.len() && 0 <= j < other.len() {
        match (nodes[i], other[j]) {
            (TreeNode::Leaf { items }, TreeNode::Leaf { items: other_items }) => items@.to_set()
                == other_items@.to_set(),
            (
                TreeNode::Internal { axis, split, below, above },
                TreeNode::Internal {
                    axis: other_axis,
                    split: other_split,
                    below: other_below,
                    above: other_above,
                },
            ) => {
                &&& axis == other_axis
                &&& split == other_split
                &&& below < i && same_tree(nodes, below as int, other, other_below as int)
                &&& above < i && same_tree(nodes, above as int, other, other_above as int)
            },
            _ => false,
        }
    } else {
        false
    }
}

proof fn lemma_total_key_injective(a: u32, b: u32)
    requires
        total_key(a) == total_key(b),
    ensures
        a == b,
{
}

/// Two keys that both split `held` at its median are equal.
proof fn lemma_median_is_unique(held: Set<usize>, tris: Seq<TriangleCoords>, axis: Axis, s1: u32, s2: u32)
    requires
        held.finite(),
        held.filter(|t: usize| centroid_key(tris[t as int], axis) < total_key(s1)).len() <= held.len() / 2,
        held.filter(|t: usize| centroid_key(tris[t as int], axis) <= total_key(s1)).len() > held.len() / 2,
        held.filter(|t: usize| centroid_key(tris[t as int], axis) < total_key(s2)).len() <= held.len() / 2,
        held.filter(|t: usize| centroid_key(tris[t as int], axis) <= total_key(s2)).len() > held.len() / 2,
    ensures
        s1 == s2,
{
    let k1 = total_key(s1);
    let k2 = total_key(s2);
    if k1 < k2 {
        let upto1 = held.filter(|t: usize| centroid_key(tris[t as int], axis) <= k1);
        let below2 = held.filter(|t: usize| centroid_key(tris[t as int], axis) < k2);
        assert(upto1.subset_of(below2));
        vstd::set_lib::lemma_len_subset(upto1, below2);
    } else if k2 < k1 {
        let upto2 = held.filter(|t: usize| centroid_key(tris[t as int], axis) <= k2);
        let below1 = held.filter(|t: usize| centroid_key(tris[t as int], axis) < k1);
        assert(upto2.subset_of(below1));
        vstd::set_lib::lemma_len_subset(upto2, below1);
    }
    lemma_total_key_injective(s1, s2);
}

proof fn lemma_subtrees_agree(
    nodes: Seq<TreeNode>,
    i: int,
    other: Seq<TreeNode>,
    j: int,
    tris: Seq<TriangleCoords>,
    held: Set<usize>,
    axis: Axis,
    depth: nat,
)
    requires
        held.finite(),
        subtree_holds(nodes, tris, i, held, axis, depth),
        subtree_holds(other, tris, j, held, axis, depth),
    ensures
        same_tree(nodes, i, other, j),
    decreases i,
{
    match (nodes[i], other[j]) {
        (TreeNode::Leaf { items }, TreeNode::Leaf { items: other_items }) => {
            assert(items@.to_set() =~= other_items@.to_set());
        },
        (TreeNode::Internal { split, below, above, .. }, TreeNode::Internal {
            split: other_split,
            below: other_below,
            above: other_above,
            ..
        }) => {
            lemma_median_is_unique(held, tris, axis, split, other_split);
            let held_below = held.filter(|t: usize| goes_below(tris[t as int], axis, split));
            let held_above = held.filter(|t: usize| goes_above(tris[t as int], axis, split));
            lemma_subtrees_agree(nodes, below as int, other, other_below as int, tris, held_below, axis.spec_next(), depth + 1);
            lemma_subtrees_agree(nodes, above as int, other, other_above as int, tris, held_above, axis.spec_next(), depth + 1);
        },
        (TreeNode::Leaf { items }, TreeNode::Internal { .. }) => {
            items@.unique_seq_to_set();
            assert(items@.to_set() =~= held);
        },
        (TreeNode::Internal { .. }, TreeNode::Leaf { items }) => {
            items@.unique_seq_to_set();
            assert(items@.to_set() =~= held);
        },
    }
}

/// Building twice from the same triangles gives the same tree: the same
/// shape, the same splitting axes and values, and leaves that hold the same
/// triangles.
pub proof fn lemma_partition_is_deterministic(p: &Partition, q: &Partition, tris: Seq<TriangleCoords>)
    requires
        p.partitions(tris),
        q.partitions(tris),
    ensures
        same_tree(p.spec_nodes(), p.spec_root(), q.spec_nodes(), q.spec_root()),
{
    let held = Set::new(|u: usize| u < tris.len());
    let range = Seq::new(tris.len(), |i: int| i as usize);
    assert forall|u: usize| #[trigger] held.contains(u) <==> range.to_set().contains(u) by {
        if u < tris.len() {
            assert(range[u as int] == u);
        }
    }
    assert(held =~= range.to_set());
    vstd::seq_lib::seq_to_set_is_finite(range);
    lemma_subtrees_agree(p.spec_nodes(), p.spec_root(), q.spec_nodes(), q.spec_root(), tris, held, Axis::X, 0);
}

/// The partition of a list of triangles: the nodes, children before
/// parents, and the index of the top node.
pub struct Partition {
    nodes: Vec<TreeNode>,
    root: usize,
}

impl Partition {
    pub closed spec fn spec_nodes(&self) -> Seq<TreeNode> {
        self.nodes@
    }

    pub closed spec fn spec_root(&self) -> int {
        self.root as int
    }

    /// The tree partitions the triangles `0 .. tris.len()`, its top node
    /// splitting along X at depth 0.
    pub open spec fn partitions(&self, tris: Seq<TriangleCoords>) -> bool {
        subtree_holds(
            self.spec_nodes(),
            tris,
            self.spec_root(),
            Set::new(|t: usize| t < tris.len()),
            Axis::X,
            0,
        )
    }

    /// Partitions the triangles `tris`. An empty list gives a single empty leaf.
    pub fn new(tris: &Vec<TriangleCoords>) -> (r: Self)
        ensures
            r.partitions(tris@),
    {
        let n = tris.len();
        let mut items: Vec<usize> = Vec::with_capacity(n);
        let mut t: usize = 0;
        while t < n
            invariant
                t <= n,
                n == tris@.len(),
                items@.len() == t,
                forall|k: int| 0 <= k < t ==> #[trigger] items@[k] == k,
            decreases n - t,
        {
            items.push(t);
            t += 1;
        }
        proof {
            assert forall|x: usize| #[trigger] items@.contains(x) <==> x < n by {
                if x < n {
                    assert(items@[x as int] == x);
                }
            }
            assert(items@.to_set() =~= Set::new(|t: usize| t < tris@.len()));
        }
        let mut nodes: Vec<TreeNode> = Vec::new();
        let root = TreeNode::build_node(tris, items, Axis::X, 0, &mut nodes);
        Partition { nodes, root }
    }

    /// The index of the top node.
    pub fn root(&self) -> (r: usize)
        ensures
            r == self.spec_root(),
    {
        self.root
    }

    /// How many nodes the tree has.
    pub fn len(&self) -> (r: usize)
        ensures
            r == self.spec_nodes().len(),
    {
        self.nodes.len()
    }

    /// The node at index `i`.
    pub fn node(&self, i: usize) -> (r: &TreeNode)
        requires
            i < self.spec_nodes().len(),
        ensures
            *r == self.spec_nodes()[i as int],
    {
        &self.nodes[i]
    }
}

} // verus!
