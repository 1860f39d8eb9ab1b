//! Vent lines on a grid: segments between two points, the grid's
//! bounds, and the points where horizontal or vertical vents overlap.
use vstd::prelude::*;

verus! {

/// A grid position: column, then row.
#[derive(Clone, Copy, Debug, PartialEq, Eq, Structural, PartialOrd, Ord, Hash)]
pub struct Point(pub usize, pub usize);

/// A vent line between two points.
#[derive(Clone, Copy, Debug)]
pub struct Segment(pub Point, pub Point);

/// The unit step from `a` toward `b`.
pub open spec fn sign_step(a: int, b: int) -> int {
    if a == b {
        0
    } else if a < b {
        1
    } else {
        -1
    }
}

/// The absolute difference of two coordinates.
pub open spec fn span(a: int, b: int) -> int {
    if a <= b {
        b - a
    } else {
        a - b
    }
}

/// How many unit steps the segment takes from its first to its second
/// point.
pub open spec fn steps(s: Segment) -> int {
    let dx = span(s.0.0 as int, s.1.0 as int);
    let dy = span(s.0.1 as int, s.1.1 as int);
    if dx >= dy {
        dx
    } else {
        dy
    }
}

/// A segment is walkable when it is horizontal, vertical, or at forty-
/// five degrees.
pub open spec fn aligned(s: Segment) -> bool {
    s.0.0 == s.1.0 || s.0.1 == s.1.1 || span(s.0.0 as int, s.1.0 as int) == span(
        s.0.1 as int,
        s.1.1 as int,
    )
}

/// The coordinate reached after `t` unit steps from `a` toward `b`.
pub open spec fn coord_at(a: int, b: int, t: int) -> int {
    a + t * sign_step(a, b)
}

/// Walking a segment never exceeds this many steps.
pub const STEP_CAP: usize = 10000;

/// The segment's coordinates are produced within the step cap.
pub open spec fn walkable(s: Segment) -> bool {
    aligned(s) && steps(s) <= STEP_CAP as int
}

/// The segment is horizontal or vertical (overlap maps ignore diagonal
/// vents).
pub open spec fn axis_kept(s: Segment) -> bool {
    s.0.0 == s.1.0 || s.0.1 == s.1.1
}

/// The segment passes through the point: it is horizontal or vertical,
/// walkable, and some step of the walk lands on the point.
pub open spec fn covers(s: Segment, p: Point) -> bool {
    axis_kept(s) && walkable(s) && exists|t: int|
        0 <= t <= steps(s) && p.0 as int == coord_at(s.0.0 as int, s.1.0 as int, t) && (
        p.1 as int) == coord_at(s.0.1 as int, s.1.1 as int, t)
}

/// How many of the segments pass through the point.
pub open spec fn cover_count(vs: Seq<Segment>, p: Point) -> int
    decreases vs.len(),
{
    if vs.len() == 0 {
        0
    } else {
        cover_count(vs.drop_last(), p) + if covers(vs.last(), p) {
            1int
        } else {
            0int
        }
    }
}

/// Why a segment cannot be walked.
#[derive(Clone, Copy, Debug, PartialEq, Eq, Structural)]
pub enum VentError {
    /// The segment is neither axis-parallel nor diagonal, or is longer
    /// than the step cap.
    Unreachable,
}

impl Segment {
    /// The unit step from `a` toward `b`, as a machine integer.
    pub fn _slope(a: isize, b: isize) -> (r: isize)
        ensures
            r as int == sign_step(a as int, b as int),
    {
        if a == b {
            0
        } else if a < b {
            1
        } else {
            -1
        }
    }

    /// The unit steps of the walk from the first point to the second,
    /// one per axis.
    pub fn slope(&self) -> (r: (isize, isize))
        requires
            self.0.0 <= isize::MAX as usize,
            self.0.1 <= isize::MAX as usize,
            self.1.0 <= isize::MAX as usize,
            self.1.1 <= isize::MAX as usize,
        ensures
            r.0 as int == sign_step(self.0.0 as int, self.1.0 as int),
            r.1 as int == sign_step(self.0.1 as int, self.1.1 as int),
    {
        let x_step = Self::_slope(self.0.0 as isize, self.1.0 as isize);
        let y_step = Self::_slope(self.0.1 as isize, self.1.1 as isize);
        (x_step, y_step)
    }

    /// Every point of the walk from the first point to the second, in
    /// step order.  Fails on a segment that is neither axis-parallel
    /// nor diagonal, or that is longer than the step cap.
    pub fn coords(&self) -> (r: Result<Vec<Point>, VentError>)
        ensures
            (r is Ok) == walkable(*self),
            r matches Ok(v) ==> {
                &&& v@.len() == steps(*self) + 1
                &&& forall|t: int|
                    0 <= t < v@.len() ==> (#[trigger] v@[t]).0 as int == coord_at(
                        self.0.0 as int,
                        self.1.0 as int,
                        t,
                    ) && v@[t].1 as int == coord_at(self.0.1 as int, self.1.1 as int, t)
            },
    {
        let x0 = self.0.0;
        let y0 = self.0.1;
        let x1 = self.1.0;
        let y1 = self.1.1;
        let dx = if x0 <= x1 {
            x1 - x0
        } else {
            x0 - x1
        };
        let dy = if y0 <= y1 {
            y1 - y0
        } else {
            y0 - y1
        };
        let n = if dx >= dy {
            dx
        } else {
            dy
        };
        let is_aligned = x0 == x1 || y0 == y1 || dx == dy;
        if !is_aligned || n > STEP_CAP {
            return Err(VentError::Unreachable);
        }
        let mut out: Vec<Point> = Vec::new();
        let mut t: usize = 0;
        while t <= n
            invariant
                0 <= t <= n + 1,
                n <= STEP_CAP,
                n == steps(*self),
                aligned(*self),
                x0 == self.0.0,
                y0 == self.0.1,
                x1 == self.1.0,
                y1 == self.1.1,
                x0 != x1 ==> n == span(x0 as int, x1 as int),
                y0 != y1 ==> n == span(y0 as int, y1 as int),
                out@.len() == t,
                forall|k: int|
                    0 <= k < t ==> (#[trigger] out@[k]).0 as int == coord_at(
                        x0 as int,
                        x1 as int,
                        k,
                    ) && out@[k].1 as int == coord_at(y0 as int, y1 as int, k),
            decreases n + 1 - t,
        {
            let x = if x1 > x0 {
                x0 + t
            } else if x1 < x0 {
                x0 - t
            } else {
                x0
            };
            let y = if y1 > y0 {
                y0 + t
            } else if y1 < y0 {
                y0 - t
            } else {
                y0
            };
            out.push(Point(x, y));
            t += 1;
        }
        proof {
            assert(out@.len() == steps(*self) + 1);
        }
        Ok(out)
    }
}

/// A map of vent lines.
pub struct VentMap {
    /// The vent segments, in input order.
    pub vents: Vec<Segment>,
}

/// The smaller of two coordinates.
pub open spec fn min2(a: int, b: int) -> int {
    if a <= b {
        a
    } else {
        b
    }
}

/// The larger of two coordinates.
pub open spec fn max2(a: int, b: int) -> int {
    if a >= b {
        a
    } else {
        b
    }
}

/// Least first coordinate over the first `i` segments' endpoints,
/// starting from the largest machine value.
pub open spec fn min_x_upto(vs: Seq<Segment>, i: int) -> int
    decreases i,
{
    if i <= 0 {
        usize::MAX as int
    } else {
        min2(min_x_upto(vs, i - 1), min2(vs[i - 1].0.0 as int, vs[i - 1].1.0 as int))
    }
}

/// Greatest first coordinate over the first `i` segments' endpoints,
/// starting from zero.
pub open spec fn max_x_upto(vs: Seq<Segment>, i: int) -> int
    decreases i,
{
    if i <= 0 {
        0
    } else {
        max2(max_x_upto(vs, i - 1), max2(vs[i - 1].0.0 as int, vs[i - 1].1.0 as int))
    }
}

/// Least second coordinate over the first `i` segments' endpoints,
/// starting from the largest machine value.
pub open spec fn min_y_upto(vs: Seq<Segment>, i: int) -> int
    decreases i,
{
    if i <= 0 {
        usize::MAX as int
    } else {
        min2(min_y_upto(vs, i - 1), min2(vs[i - 1].0.1 as int, vs[i - 1].1.1 as int))
    }
}

/// Greatest second coordinate over the first `i` segments' endpoints,
/// starting from zero.
pub open spec fn max_y_upto(vs: Seq<Segment>, i: int) -> int
    decreases i,
{
    if i <= 0 {
        0
    } else {
        max2(max_y_upto(vs, i - 1), max2(vs[i - 1].0.1 as int, vs[i - 1].1.1 as int))
    }
}

/// How often the point appears in the list.
pub open spec fn occ(pts: Seq<Point>, p: Point) -> int
    decreases pts.len(),
{
    if pts.len() == 0 {
        0
    } else {
        occ(pts.drop_last(), p) + if pts.last() == p {
            1int
        } else {
            0int
        }
    }
}

/// Occurrences add up over concatenation.
pub proof fn lemma_occ_add(a: Seq<Point>, b: Seq<Point>, p: Point)
    ensures
        occ(a + b, p) == occ(a, p) + occ(b, p),
    decreases b.len(),
{
    if b.len() == 0 {
        assert(a + b =~= a);
    } else {
        lemma_occ_add(a, b.drop_last(), p);
        assert((a + b).drop_last() =~= a + b.drop_last());
        assert((a + b).last() == b.last());
    }
}

/// Two different steps of one walk land on different points.
pub proof fn lemma_walk_injective(s: Segment, t1: int, t2: int)
    requires
        aligned(s),
        0 <= t1 < t2 <= steps(s),
    ensures
        coord_at(s.0.0 as int, s.1.0 as int, t1) != coord_at(s.0.0 as int, s.1.0 as int, t2)
            || coord_at(s.0.1 as int, s.1.1 as int, t1) != coord_at(s.0.1 as int, s.1.1 as int, t2),
{
    if s.0.0 != s.1.0 {
        assert(coord_at(s.0.0 as int, s.1.0 as int, t1) != coord_at(s.0.0 as int, s.1.0 as int, t2));
    } else {
        assert(steps(s) == span(s.0.1 as int, s.1.1 as int));
        assert(s.0.1 != s.1.1);
        assert(coord_at(s.0.1 as int, s.1.1 as int, t1) != coord_at(s.0.1 as int, s.1.1 as int, t2));
    }
}

/// A walked segment passes each of its points exactly once: the point
/// list of a walk holds one occurrence of every covered point.
pub proof fn lemma_occ_of_walk(s: Segment, pts: Seq<Point>, p: Point, u: int)
    requires
        axis_kept(s),
        walkable(s),
        pts.len() == steps(s) + 1,
        forall|t: int|
            0 <= t < pts.len() ==> (#[trigger] pts[t]).0 as int == coord_at(
                s.0.0 as int,
                s.1.0 as int,
                t,
            ) && pts[t].1 as int == coord_at(s.0.1 as int, s.1.1 as int, t),
        0 <= u <= pts.len(),
    ensures
        occ(pts.take(u), p) == if exists|t: int|
            0 <= t < u && p.0 as int == coord_at(s.0.0 as int, s.1.0 as int, t) && (p.1 as int)
                == coord_at(s.0.1 as int, s.1.1 as int, t) {
            1int
        } else {
            0int
        },
    decreases u,
{
    if u > 0 {
        lemma_occ_of_walk(s, pts, p, u - 1);
        assert(pts.take(u).drop_last() =~= pts.take(u - 1));
        assert(pts.take(u).last() == pts[u - 1]);
        if pts[u - 1] == p {
            assert(p.0 as int == coord_at(s.0.0 as int, s.1.0 as int, u - 1));
            assert forall|t: int|
                0 <= t < u - 1 implies !(p.0 as int == coord_at(s.0.0 as int, s.1.0 as int, t) && (
            p.1 as int) == coord_at(s.0.1 as int, s.1.1 as int, t)) by {
                lemma_walk_injective(s, t, u - 1);
            }
        } else {
            if exists|t: int|
                0 <= t < u && p.0 as int == coord_at(s.0.0 as int, s.1.0 as int, t) && (p.1 as int)
                    == coord_at(s.0.1 as int, s.1.1 as int, t) {
                let t = choose|t: int|
                    0 <= t < u && p.0 as int == coord_at(s.0.0 as int, s.1.0 as int, t) && (
                    p.1 as int) == coord_at(s.0.1 as int, s.1.1 as int, t);
                assert(t != u - 1);
            }
        }
    }
}

impl VentMap {
    /// The corners of the smallest rectangle containing every segment:
    /// least coordinates first, then greatest.  With no segments the
    /// least corner stays at the machine maximum and the greatest at
    /// the origin.
    pub fn bounds(&self) -> (r: (Point, Point))
        ensures
            r.0.0 as int == min_x_upto(self.vents@, self.vents@.len() as int),
            r.0.1 as int == min_y_upto(self.vents@, self.vents@.len() as int),
            r.1.0 as int == max_x_upto(self.vents@, self.vents@.len() as int),
            r.1.1 as int == max_y_upto(self.vents@, self.vents@.len() as int),
    {
        let mut min_x: usize = usize::MAX;
        let mut min_y: usize = usize::MAX;
        let mut max_x: usize = 0;
        let mut max_y: usize = 0;
        let mut i: usize = 0;
        while i < self.vents.len()
            invariant
                0 <= i <= self.vents@.len(),
                min_x as int == min_x_upto(self.vents@, i as int),
                min_y as int == min_y_upto(self.vents@, i as int),
                max_x as int == max_x_upto(self.vents@, i as int),
                max_y as int == max_y_upto(self.vents@, i as int),
            decreases self.vents@.len() - i,
        {
            let s = self.vents[i];
            let lo_x = if s.0.0 <= s.1.0 {
                s.0.0
            } else {
                s.1.0
            };
            let hi_x = if s.0.0 >= s.1.0 {
                s.0.0
            } else {
                s.1.0
            };
            let lo_y = if s.0.1 <= s.1.1 {
                s.0.1
            } else {
                s.1.1
            };
            let hi_y = if s.0.1 >= s.1.1 {
                s.0.1
            } else {
                s.1.1
            };
            if lo_x < min_x {
                min_x = lo_x;
            }
            if hi_x > max_x {
                max_x = hi_x;
            }
            if lo_y < min_y {
                min_y = lo_y;
            }
            if hi_y > max_y {
                max_y = hi_y;
            }
            i += 1;
        }
        (Point(min_x, min_y), Point(max_x, max_y))
    }

    /// The points covered by at least two horizontal or vertical
    /// segments, each with its exact cover count, one entry per point.
    pub fn overlaps(&self) -> (r: Vec<(Point, usize)>)
        ensures
            forall|t1: int, t2: int|
                0 <= t1 < t2 < r@.len() ==> (#[trigger] r@[t1]).0 != (#[trigger] r@[t2]).0,
            forall|t: int|
                0 <= t < r@.len() ==> (#[trigger] r@[t]).1 as int == cover_count(
                    self.vents@,
                    r@[t].0,
                ) && r@[t].1 >= 2,
            forall|p: Point|
                cover_count(self.vents@, p) >= 2 ==> exists|t: int|
                    0 <= t < r@.len() && (#[trigger] r@[t]).0 == p,
    {
        let ghost vs = self.vents@;
        let mut pts: Vec<Point> = Vec::new();
        let mut i: usize = 0;
        while i < self.vents.len()
            invariant
                0 <= i <= vs.len(),
                vs == self.vents@,
                forall|p: Point| occ(pts@, p) == cover_count(vs.take(i as int), p),
            decreases vs.len() - i,
        {
            let ghost pre = pts@;
            let s = self.vents[i];
            proof {
                assert(vs.take(i as int + 1).drop_last() =~= vs.take(i as int));
                assert(vs.take(i as int + 1).last() == vs[i as int]);
            }
            let kept = s.0.0 == s.1.0 || s.0.1 == s.1.1;
            if kept {
                match s.coords() {
                    Ok(v) => {
                        let m = v.len();
                        let mut t: usize = 0;
                        while t < m
                            invariant
                                0 <= t <= m,
                                m == v@.len(),
                                pts@ == pre + v@.take(t as int),
                            decreases m - t,
                        {
                            pts.push(v[t]);
                            proof {
                                assert(pre + v@.take(t as int + 1) =~= (pre + v@.take(
                                    t as int,
                                )).push(v@[t as int]));
                            }
                            t += 1;
                        }
                        proof {
                            assert(v@.take(m as int) =~= v@);
                            assert(pts@ == pre + v@);
                            assert forall|p: Point| occ(pts@, p) == cover_count(
                                vs.take(i as int + 1),
                                p,
                            ) by {
                                lemma_occ_add(pre, v@, p);
                                lemma_occ_of_walk(s, v@, p, v@.len() as int);
                                assert(v@.take(v@.len() as int) =~= v@);
                            }
                        }
                    },
                    Err(_) => {
                        proof {
                            assert forall|p: Point| occ(pts@, p) == cover_count(
                                vs.take(i as int + 1),
                                p,
                            ) by {
                                assert(!covers(vs[i as int], p));
                            }
                        }
                    },
                }
            } else {
                proof {
                    assert forall|p: Point| occ(pts@, p) == cover_count(
                        vs.take(i as int + 1),
                        p,
                    ) by {
                        assert(!covers(vs[i as int], p));
                    }
                }
            }
            i += 1;
        }
        proof {
            assert(vs.take(vs.len() as int) =~= vs);
        }
        let mut out: Vec<(Point, usize)> = Vec::new();
        let total = pts.len();
        let mut t: usize = 0;
        while t < total
            invariant
                0 <= t <= total,
                total == pts@.len(),
                forall|p: Point| occ(pts@, p) == cover_count(vs, p),
                forall|u1: int, u2: int|
                    0 <= u1 < u2 < out@.len() ==> (#[trigger] out@[u1]).0 != (#[trigger] out@[
                        u2
                    ]).0,
                forall|u: int|
                    0 <= u < out@.len() ==> (#[trigger] out@[u]).1 as int == occ(pts@, out@[u].0)
                        && out@[u].1 >= 2 && occ(pts@.take(t as int), out@[u].0) >= 1,
                forall|p: Point|
                    occ(pts@.take(t as int), p) >= 1 && occ(pts@, p) >= 2 ==> exists|u: int|
                        0 <= u < out@.len() && (#[trigger] out@[u]).0 == p,
            decreases total - t,
        {
            proof {
                assert(pts@.take(t as int + 1).drop_last() =~= pts@.take(t as int));
                assert(pts@.take(t as int + 1).last() == pts@[t as int]);
            }
            let here = pts[t];
            if !appears_before(&pts, t) {
                proof {
                    lemma_occ_take_none(pts@, here, t as int);
                }
                let c = count_point(&pts, here);
                if c >= 2 {
                    let ghost pre_out = out@;
                    out.push((here, c));
                    proof {
                        assert(out@.last().0 == here);
                        assert forall|p: Point|
                            occ(pts@.take(t as int + 1), p) >= 1 && occ(pts@, p) >= 2 implies
                            exists|u: int|
                            0 <= u < out@.len() && (#[trigger] out@[u]).0 == p by {
                            if p == here {
                                assert(out@[out@.len() - 1].0 == p);
                            } else {
                                assert(occ(pts@.take(t as int), p) >= 1);
                                let u = choose|u: int|
                                    0 <= u < pre_out.len() && (#[trigger] pre_out[u]).0 == p;
                                assert(out@[u] == pre_out[u]);
                                assert(out@[u].0 == p);
                            }
                        }
                    }
                } else {
                    proof {
                        assert forall|p: Point|
                            occ(pts@.take(t as int + 1), p) >= 1 && occ(pts@, p) >= 2 implies
                            exists|u: int|
                            0 <= u < out@.len() && (#[trigger] out@[u]).0 == p by {
                            if p == here {
                                assert(occ(pts@, p) < 2);
                            } else {
                                assert(occ(pts@.take(t as int), p) >= 1);
                            }
                        }
                    }
                }
            } else {
                proof {
                    let k = choose|k: int| 0 <= k < t && pts@[k] == pts@[t as int];
                    lemma_occ_positive(pts@, pts@[t as int], k, t as int);
                    assert forall|p: Point|
                        occ(pts@.take(t as int + 1), p) >= 1 && occ(pts@, p) >= 2 implies exists|
                        u: int,
                    |
                        0 <= u < out@.len() && (#[trigger] out@[u]).0 == p by {
                        assert(occ(pts@.take(t as int), p) >= 1);
                    }
                }
            }
            t += 1;
        }
        proof {
            assert(pts@.take(total as int) =~= pts@);
        }
        out
    }
}

/// A point with no occurrence in the first `t` entries first appears at
/// `t` or later, so its earlier occurrence count is zero; conversely a
/// point that appears at `t` and not before has none earlier.
pub proof fn lemma_occ_take_none(pts: Seq<Point>, p: Point, t: int)
    requires
        0 <= t <= pts.len(),
        forall|k: int| 0 <= k < t ==> pts[k] != p,
    ensures
        occ(pts.take(t), p) == 0,
    decreases t,
{
    if t > 0 {
        lemma_occ_take_none(pts, p, t - 1);
        assert(pts.take(t).drop_last() =~= pts.take(t - 1));
        assert(pts.take(t).last() == pts[t - 1]);
    }
}

/// A point that stands at position `k` occurs in any prefix reaching
/// past `k`.
pub proof fn lemma_occ_positive(pts: Seq<Point>, p: Point, k: int, t: int)
    requires
        0 <= k < t <= pts.len(),
        pts[k] == p,
    ensures
        occ(pts.take(t), p) >= 1,
    decreases t,
{
    lemma_occ_nonneg(pts.take(t).drop_last(), p);
    assert(pts.take(t).drop_last() =~= pts.take(t - 1));
    assert(pts.take(t).last() == pts[t - 1]);
    if k < t - 1 {
        lemma_occ_positive(pts, p, k, t - 1);
    }
    lemma_occ_nonneg(pts.take(t), p);
}

/// Occurrence counts are never negative.
pub proof fn lemma_occ_nonneg(pts: Seq<Point>, p: Point)
    ensures
        occ(pts, p) >= 0,
    decreases pts.len(),
{
    if pts.len() > 0 {
        lemma_occ_nonneg(pts.drop_last(), p);
    }
}

/// Whether an equal point stands earlier in the list.
fn appears_before(pts: &Vec<Point>, t: usize) -> (r: bool)
    requires
        t < pts@.len(),
    ensures
        r == exists|k: int| 0 <= k < t && pts@[k] == pts@[t as int],
{
    let mut k: usize = 0;
    while k < t
        invariant
            0 <= k <= t,
            t < pts@.len(),
            forall|k2: int| 0 <= k2 < k ==> pts@[k2] != pts@[t as int],
        decreases t - k,
    {
        if pts[k] == pts[t] {
            return true;
        }
        k += 1;
    }
    false
}

/// How many entries of the list equal the point.
fn count_point(pts: &Vec<Point>, p: Point) -> (r: usize)
    ensures
        r as int == occ(pts@, p),
{
    let mut count: usize = 0;
    let mut k: usize = 0;
    while k < pts.len()
        invariant
            0 <= k <= pts@.len(),
            count as int == occ(pts@.take(k as int), p),
            count <= k,
        decreases pts@.len() - k,
    {
        proof {
            assert(pts@.take(k as int + 1).drop_last() =~= pts@.take(k as int));
            assert(pts@.take(k as int + 1).last() == pts@[k as int]);
        }
        if pts[k] == p {
            count += 1;
        }
        k += 1;
    }
    proof {
        assert(pts@.take(pts@.len() as int) =~= pts@);
    }
    count
}

} // verus!
