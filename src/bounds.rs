//! Axis-aligned bounding boxes over points given by the bits of their
//! single-precision coordinates.
use crate::kdtree::{is_nan, less_than, line_position, INFINITY_BITS, SIGN_BIT};
use vstd::prelude::*;

verus! {

/// The bits of `f32::MAX`.
pub const F32_MAX_BITS: u32 = 0x7f7f_ffff;

/// The bits of `f32::MIN`, the most negative finite number.
pub const F32_MIN_BITS: u32 = 0xff7f_ffff;

/// `f32::min`: a NaN argument yields the other one; of two equal numbers the
/// first is kept.
pub open spec fn float_min(a: u32, b: u32) -> u32 {
    if is_nan(b) {
        a
    } else if is_nan(a) {
        b
    } else if line_position(b) < line_position(a) {
        b
    } else {
        a
    }
}

/// `f32::max`: a NaN argument yields the other one; of two equal numbers the
/// first is kept.
pub open spec fn float_max(a: u32, b: u32) -> u32 {
    if is_nan(b) {
        a
    } else if is_nan(a) {
        b
    } else if line_position(b) > line_position(a) {
        b
    } else {
        a
    }
}

fn min_bits(a: u32, b: u32) -> (r: u32)
    ensures
        r == float_min(a, b),
{
    if b % SIGN_BIT > INFINITY_BITS {
        a
    } else if a % SIGN_BIT > INFINITY_BITS {
        b
    } else if less_than(b, a) {
        b
    } else {
        a
    }
}

fn max_bits(a: u32, b: u32) -> (r: u32)
    ensures
        r == float_max(a, b),
{
    if b % SIGN_BIT > INFINITY_BITS {
        a
    } else if a % SIGN_BIT > INFINITY_BITS {
        b
    } else if less_than(a, b) {
        b
    } else {
        a
    }
}

/// Corner `min` of the box grown from `f32::MAX` over `points`, along axis `a`.
pub open spec fn fold_min(points: Seq<[u32; 3]>, a: int) -> u32
    decreases points.len(),
{
    if points.len() == 0 {
        F32_MAX_BITS
    } else {
        float_min(fold_min(points.drop_last(), a), points.last()@[a])
    }
}

/// Corner `max` of the box grown from `f32::MIN` over `points`, along axis `a`.
pub open spec fn fold_max(points: Seq<[u32; 3]>, a: int) -> u32
    decreases points.len(),
{
    if points.len() == 0 {
        F32_MIN_BITS
    } else {
        float_max(fold_max(points.drop_last(), a), points.last()@[a])
    }
}

/// `fold_min` is no NaN, lies at or below `f32::MAX` and every coordinate
/// that is no NaN, and is `f32::MAX` or one of those coordinates.
proof fn lemma_fold_min_is_least(points: Seq<[u32; 3]>, a: int)
    requires
        0 <= a < 3,
    ensures
        !is_nan(fold_min(points, a)),
        line_position(fold_min(points, a)) <= line_position(F32_MAX_BITS),
        forall|i: int|
            0 <= i < points.len() && !is_nan(#[trigger] points[i]@[a]) ==> line_position(
                fold_min(points, a),
            ) <= line_position(points[i]@[a]),
        fold_min(points, a) == F32_MAX_BITS || exists|i: int|
            0 <= i < points.len() && !is_nan(#[trigger] points[i]@[a]) && fold_min(points, a)
                == points[i]@[a],
    decreases points.len(),
{
    if points.len() > 0 {
        let rest = points.drop_last();
        lemma_fold_min_is_least(rest, a);
        assert forall|i: int| 0 <= i < rest.len() implies #[trigger] rest[i] == points[i] by {}
        assert forall|i: int|
            0 <= i < points.len() && !is_nan(#[trigger] points[i]@[a]) implies line_position(
            fold_min(points, a),
        ) <= line_position(points[i]@[a]) by {
            if i < rest.len() {
                assert(rest[i] == points[i]);
            } else {
                assert(points[i] == points.last());
            }
        }
        if fold_min(points, a) != F32_MAX_BITS && fold_min(points, a) != points.last()@[a] {
            let j = choose|j: int|
                0 <= j < rest.len() && !is_nan(#[trigger] rest[j]@[a]) && fold_min(rest, a)
                    == rest[j]@[a];
            assert(points[j] == rest[j]);
        }
        if fold_min(points, a) == points.last()@[a] {
            assert(points[points.len() - 1] == points.last());
        }
    }
}

/// `fold_max` is no NaN, lies at or above `f32::MIN` and every coordinate
/// that is no NaN, and is `f32::MIN` or one of those coordinates.
proof fn lemma_fold_max_is_greatest(points: Seq<[u32; 3]>, a: int)
    requires
        0 <= a < 3,
    ensures
        !is_nan(fold_max(points, a)),
        line_position(fold_max(points, a)) >= line_position(F32_MIN_BITS),
        forall|i: int|
            0 <= i < points.len() && !is_nan(#[trigger] points[i]@[a]) ==> line_position(
                fold_max(points, a),
            ) >= line_position(points[i]@[a]),
        fold_max(points, a) == F32_MIN_BITS || exists|i: int|
            0 <= i < points.len() && !is_nan(#[trigger] points[i]@[a]) && fold_max(points, a)
                == points[i]@[a],
    decreases points.len(),
{
    if points.len() > 0 {
        let rest = points.drop_last();
        lemma_fold_max_is_greatest(rest, a);
        assert forall|i: int| 0 <= i < rest.len() implies #[trigger] rest[i] == points[i] by {}
        assert forall|i: int|
            0 <= i < points.len() && !is_nan(#[trigger] points[i]@[a]) implies line_position(
            fold_max(points, a),
        ) >= line_position(points[i]@[a]) by {
            if i < rest.len() {
                assert(rest[i] == points[i]);
            } else {
                assert(points[i] == points.last());
            }
        }
        if fold_max(points, a) != F32_MIN_BITS && fold_max(points, a) != points.last()@[a] {
            let j = choose|j: int|
                0 <= j < rest.len() && !is_nan(#[trigger] rest[j]@[a]) && fold_max(rest, a)
                    == rest[j]@[a];
            assert(points[j] == rest[j]);
        }
        if fold_max(points, a) == points.last()@[a] {
            assert(points[points.len() - 1] == points.last());
        }
    }
}

/// No coordinate of any point is NaN.
pub open spec fn points_have_no_nan(points: Seq<[u32; 3]>) -> bool {
    forall|i: int, a: int| 0 <= i < points.len() && 0 <= a < 3 ==> !is_nan(#[trigger] points[i]@[a])
}

/// The box of a list of one or more points with no NaN coordinate has its
/// `min` corner at or below its `max` corner on every axis.
pub proof fn lemma_from_points_is_ordered(points: Seq<[u32; 3]>, a: int)
    requires
        points.len() > 0,
        0 <= a < 3,
        points_have_no_nan(points),
    ensures
        line_position(fold_min(points, a)) <= line_position(fold_max(points, a)),
{
    lemma_fold_min_is_least(points, a);
    lemma_fold_max_is_greatest(points, a);
    assert(!is_nan(points[0]@[a]));
}

/// The box of a list of points depends on the points alone, not on their
/// order or on repeats: two lists that hold the same points give corners at
/// the same numbers (`+0.0` and `-0.0` being the same number).
pub proof fn lemma_from_points_ignores_order(p: Seq<[u32; 3]>, q: Seq<[u32; 3]>, a: int)
    requires
        0 <= a < 3,
        forall|x: [u32; 3]| #[trigger] p.contains(x) <==> q.contains(x),
    ensures
        line_position(fold_min(p, a)) == line_position(fold_min(q, a)),
        line_position(fold_max(p, a)) == line_position(fold_max(q, a)),
{
    lemma_fold_min_is_least(p, a);
    lemma_fold_min_is_least(q, a);
    lemma_fold_max_is_greatest(p, a);
    lemma_fold_max_is_greatest(q, a);
    if fold_min(p, a) != F32_MAX_BITS {
        let i = choose|i: int|
            0 <= i < p.len() && !is_nan(#[trigger] p[i]@[a]) && fold_min(p, a) == p[i]@[a];
        assert(p.contains(p[i]));
        let j = choose|j: int| 0 <= j < q.len() && q[j] == p[i];
        assert(q[j]@[a] == p[i]@[a]);
    }
    if fold_min(q, a) != F32_MAX_BITS {
        let j = choose|j: int|
            0 <= j < q.len() && !is_nan(#[trigger] q[j]@[a]) && fold_min(q, a) == q[j]@[a];
        assert(q.contains(q[j]));
        assert(p.contains(q[j]));
        let i = choose|i: int| 0 <= i < p.len() && p[i] == q[j];
        assert(p[i]@[a] == q[j]@[a]);
    }
    if fold_max(p, a) != F32_MIN_BITS {
        let i = choose|i: int|
            0 <= i < p.len() && !is_nan(#[trigger] p[i]@[a]) && fold_max(p, a) == p[i]@[a];
        assert(p.contains(p[i]));
        let j = choose|j: int| 0 <= j < q.len() && q[j] == p[i];
        assert(q[j]@[a] == p[i]@[a]);
    }
    if fold_max(q, a) != F32_MIN_BITS {
        let j = choose|j: int|
            0 <= j < q.len() && !is_nan(#[trigger] q[j]@[a]) && fold_max(q, a) == q[j]@[a];
        assert(q.contains(q[j]));
        assert(p.contains(q[j]));
        let i = choose|i: int| 0 <= i < p.len() && p[i] == q[j];
        assert(p[i]@[a] == q[j]@[a]);
    }
}

/// A box given by the bits of its two corners.
#[derive(Clone, Copy, Debug)]
pub struct AABB {
    min: [u32; 3],
    max: [u32; 3],
}

impl AABB {
    pub closed spec fn spec_min(&self) -> Seq<u32> {
        self.min@
    }

    pub closed spec fn spec_max(&self) -> Seq<u32> {
        self.max@
    }

    pub fn new(min: [u32; 3], max: [u32; 3]) -> (r: Self)
        ensures
            r.spec_min() == min@,
            r.spec_max() == max@,
    {
        AABB { min, max }
    }

    /// The smallest box that holds every point, grown from the inverted box
    /// with corners `f32::MAX` and `f32::MIN`; NaN coordinates are passed
    /// over, so an empty list leaves the box inverted.
    pub fn from_points(points: &Vec<[u32; 3]>) -> (r: Self)
        ensures
            forall|a: int| 0 <= a < 3 ==> #[trigger] r.spec_min()[a] == fold_min(points@, a),
            forall|a: int| 0 <= a < 3 ==> #[trigger] r.spec_max()[a] == fold_max(points@, a),
    {
        let mut bounds = AABB::new(
            [F32_MAX_BITS, F32_MAX_BITS, F32_MAX_BITS],
            [F32_MIN_BITS, F32_MIN_BITS, F32_MIN_BITS],
        );
        let mut i: usize = 0;
        while i < points.len()
            invariant
                i <= points@.len(),
                forall|a: int| 0 <= a < 3 ==> #[trigger] bounds.spec_min()[a] == fold_min(points@.subrange(0, i as int), a),
                forall|a: int| 0 <= a < 3 ==> #[trigger] bounds.spec_max()[a] == fold_max(points@.subrange(0, i as int), a),
            decreases points@.len() - i,
        {
            proof {
                let next = points@.subrange(0, i + 1);
                assert(next.drop_last() =~= points@.subrange(0, i as int));
                assert(next.last() == points@[i as int]);
            }
            bounds.expand(points[i]);
            i += 1;
        }
        proof {
            assert(points@.subrange(0, points@.len() as int) =~= points@);
        }
        bounds
    }

    pub fn min(&self) -> (r: [u32; 3])
        ensures
            r@ == self.spec_min(),
    {
        self.min
    }

    pub fn max(&self) -> (r: [u32; 3])
        ensures
            r@ == self.spec_max(),
    {
        self.max
    }

    /// Grows the box to hold `p`, axis by axis, as `f32::min` and `f32::max` do.
    pub fn expand(&mut self, p: [u32; 3])
        ensures
            forall|a: int| 0 <= a < 3 ==> #[trigger] final(self).spec_min()[a] == float_min(old(self).spec_min()[a], p@[a]),
            forall|a: int| 0 <= a < 3 ==> #[trigger] final(self).spec_max()[a] == float_max(old(self).spec_max()[a], p@[a]),
    {
        let min = [min_bits(self.min[0], p[0]), min_bits(self.min[1], p[1]), min_bits(self.min[2], p[2])];
        let max = [max_bits(self.max[0], p[0]), max_bits(self.max[1], p[1]), max_bits(self.max[2], p[2])];
        self.min = min;
        self.max = max;
    }
}

} // verus!
