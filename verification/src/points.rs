//! Points on the integer plane, the squared-Euclidean metric, and random
//! point sets.

use vstd::prelude::*;

verus! {

/// A point with non-negative integer coordinates.
#[derive(Debug, Clone, Copy)]
pub struct Point {
    pub x: u32,
    pub y: u32,
}

/// The squared Euclidean distance between two points, as a mathematical
/// integer.
pub open spec fn dist_sq(a: Point, b: Point) -> int {
    (a.x - b.x) * (a.x - b.x) + (a.y - b.y) * (a.y - b.y)
}

/// Both coordinates fit in the signed 32-bit range, so coordinate
/// differences can be formed without overflow.
pub open spec fn coords_in_range(p: Point) -> bool {
    p.x <= i32::MAX && p.y <= i32::MAX
}

/// Coordinate equality.
pub open spec fn same_pt(a: Point, b: Point) -> bool {
    a.x == b.x && a.y == b.y
}

/// A squared distance is never negative.
pub proof fn lemma_dist_sq_nonneg(a: Point, b: Point)
    ensures
        dist_sq(a, b) >= 0,
{
    let px = a.x as int;
    let qx = b.x as int;
    let py = a.y as int;
    let qy = b.y as int;
    assert((px - qx) * (px - qx) >= 0 && (py - qy) * (py - qy) >= 0) by (nonlinear_arith);
}

/// The squared distance does not depend on the order of its arguments.
pub proof fn lemma_dist_sq_sym(a: Point, b: Point)
    ensures
        dist_sq(a, b) == dist_sq(b, a),
{
    let px = a.x as int;
    let qx = b.x as int;
    let py = a.y as int;
    let qy = b.y as int;
    assert((px - qx) * (px - qx) == (qx - px) * (qx - px)
        && (py - qy) * (py - qy) == (qy - py) * (qy - py)) by (nonlinear_arith);
}

/// The sequence after a swap-removal at `i`: the last element takes the
/// place of the removed one.
pub open spec fn swap_removed(s: Seq<Point>, i: int) -> Seq<Point> {
    s.update(i, s.last()).drop_last()
}

/// The index of the first point among the leading `k` of `s` that is
/// closest to `p`.
pub open spec fn min_idx(p: Point, s: Seq<Point>, k: int) -> int
    decreases k,
{
    if k <= 1 {
        0
    } else {
        let m = min_idx(p, s, k - 1);
        if dist_sq(p, s[k - 1]) < dist_sq(p, s[m]) {
            k - 1
        } else {
            m
        }
    }
}

/// The chosen index is in range, minimizes the distance to `p` among the
/// first `k` candidates, and is the first to do so.
pub proof fn lemma_min_idx_props(p: Point, s: Seq<Point>, k: int)
    requires
        1 <= k <= s.len(),
    ensures
        0 <= min_idx(p, s, k) < k,
        forall|j: int|
            0 <= j < k ==> dist_sq(p, s[min_idx(p, s, k)]) <= dist_sq(p, #[trigger] s[j]),
        forall|j: int|
            0 <= j < min_idx(p, s, k) ==> dist_sq(p, #[trigger] s[j]) > dist_sq(p, s[min_idx(p, s, k)]),
    decreases k,
{
    if k > 1 {
        lemma_min_idx_props(p, s, k - 1);
    }
}

/// The visitation order of the greedy walk that starts at `p` over the
/// working set `s`: the closest remaining point - the first encountered on
/// ties - is visited and swap-removed, and the walk goes on from it.
pub open spec fn greedy_order(p: Point, s: Seq<Point>) -> Seq<Point>
    decreases s.len(),
{
    if s.len() == 0 {
        Seq::empty()
    } else {
        let i = min_idx(p, s, s.len() as int);
        proof {
            lemma_min_idx_props(p, s, s.len() as int);
        }
        seq![s[i]] + greedy_order(s[i], swap_removed(s, i))
    }
}

/// The squared distance accumulated by the same greedy walk.
pub open spec fn greedy_total(p: Point, s: Seq<Point>) -> int
    decreases s.len(),
{
    if s.len() == 0 {
        0
    } else {
        let i = min_idx(p, s, s.len() as int);
        proof {
            lemma_min_idx_props(p, s, s.len() as int);
        }
        dist_sq(p, s[i]) + greedy_total(s[i], swap_removed(s, i))
    }
}

/// The greedy walk never accumulates a negative total.
pub proof fn lemma_greedy_total_nonneg(p: Point, s: Seq<Point>)
    ensures
        greedy_total(p, s) >= 0,
    decreases s.len(),
{
    if s.len() > 0 {
        let i = min_idx(p, s, s.len() as int);
        lemma_min_idx_props(p, s, s.len() as int);
        lemma_dist_sq_nonneg(p, s[i]);
        lemma_greedy_total_nonneg(s[i], swap_removed(s, i));
    }
}

/// Relies on rand::random: draws a value from the thread-local generator;
/// nothing is promised of the result.
pub assume_specification<T>[ rand::random::<T> ]() -> (r: T)
    where
        rand::distributions::Standard: rand::distributions::Distribution<T>,
;

impl Point {
    /// Returns a new point.
    pub fn new(x: u32, y: u32) -> (r: Point)
        ensures
            r.x == x,
            r.y == y,
    {
        Point { x, y }
    }

    /// Returns a random point inside the rectangle n*m.
    pub fn random_point(n: u32, m: u32) -> (r: Point)
        requires
            n >= 1,
            m >= 1,
        ensures
            r.x < n,
            r.y < m,
    {
        let x: u32 = rand::random();
        let y: u32 = rand::random();
        Point::new(x % n, y % m)
    }

    /// Returns the squared distance between two points.
    pub fn distance(&self, pt: &Point) -> (r: u32)
        requires
            coords_in_range(*self),
            coords_in_range(*pt),
            dist_sq(*self, *pt) <= i32::MAX,
        ensures
            r == dist_sq(*self, *pt),
    {
        let diff_x: i32 = self.x as i32 - pt.x as i32;
        let diff_y: i32 = self.y as i32 - pt.y as i32;
        proof {
            lemma_dist_sq_nonneg(*self, *pt);
            assert(diff_x * diff_x >= 0 && diff_y * diff_y >= 0) by (nonlinear_arith);
            assert(diff_x * diff_x + diff_y * diff_y == dist_sq(*self, *pt));
        }
        (diff_x * diff_x + diff_y * diff_y) as u32
    }

    /// Tells whether two points carry the same coordinates.
    pub fn is_same_as(&self, pt: &Point) -> (r: bool)
        ensures
            r == same_pt(*self, *pt),
    {
        self.x == pt.x && self.y == pt.y
    }

    /// Tells whether a point with these coordinates stands in the vector.
    pub fn is_in(&self, vec: &Vec<Point>) -> (r: bool)
        ensures
            r == exists|k: int| 0 <= k < vec@.len() && same_pt(*self, #[trigger] vec@[k]),
    {
        let mut i: usize = 0;
        while i < vec.len()
            invariant
                i <= vec@.len(),
                forall|k: int| 0 <= k < i ==> !same_pt(*self, #[trigger] vec@[k]),
            decreases vec@.len() - i,
        {
            if self.is_same_as(&vec[i]) {
                return true;
            }
            i += 1;
        }
        false
    }

    /// Returns the closest point to `self` and removes it from the vector
    /// by a swap with the last element; among equally close candidates the
    /// first encountered is taken.
    #[verifier::loop_isolation(false)]
    pub fn closest_point(&self, vec: &mut Vec<Point>) -> (r: Point)
        requires
            old(vec)@.len() >= 1,
            coords_in_range(*self),
            forall|k: int|
                0 <= k < old(vec)@.len() ==> coords_in_range(#[trigger] old(vec)@[k])
                    && dist_sq(*self, old(vec)@[k]) <= i32::MAX,
        ensures
            r == old(vec)@[min_idx(*self, old(vec)@, old(vec)@.len() as int)],
            final(vec)@ == swap_removed(old(vec)@, min_idx(*self, old(vec)@, old(vec)@.len() as int)),
            final(vec)@.len() == old(vec)@.len() - 1,
            forall|k: int|
                0 <= k < old(vec)@.len() ==> dist_sq(*self, r) <= dist_sq(*self, #[trigger] old(vec)@[k]),
    {
        let ghost s = vec@;
        let mut index: usize = 0;
        let mut best_d: u32 = self.distance(&vec[0]);
        let mut i: usize = 1;
        while i < vec.len()
            invariant
                vec@ == s,
                1 <= i <= s.len(),
                index < i,
                index as int == min_idx(*self, s, i as int),
                best_d == dist_sq(*self, s[index as int]),
            decreases s.len() - i,
        {
            let d = self.distance(&vec[i]);
            if d < best_d {
                index = i;
                best_d = d;
            }
            i += 1;
        }
        proof {
            lemma_min_idx_props(*self, s, s.len() as int);
        }
        vec.swap_remove(index)
    }
}

/// Appends a freshly drawn point to a point set when no point with the same
/// coordinates stands in it yet; reports whether it was kept.
pub fn push_if_fresh(vec: &mut Vec<Point>, pt: Point) -> (kept: bool)
    ensures
        kept == !(exists|k: int| 0 <= k < old(vec)@.len() && same_pt(pt, #[trigger] old(vec)@[k])),
        kept ==> final(vec)@ == old(vec)@.push(pt),
        !kept ==> final(vec)@ == old(vec)@,
{
    if !pt.is_in(vec) {
        vec.push(pt);
        true
    } else {
        false
    }
}

} // verus!
