//! Overlapping vent lines on an integer grid.

use vstd::prelude::*;

verus! {

/// A grid point.
#[derive(Clone, Copy, PartialEq, Eq, Structural)]
pub struct Point(pub i64, pub i64);

pub open spec fn sgn(d: int) -> int {
    if d > 0 {
        1
    } else if d < 0 {
        -1
    } else {
        0
    }
}

pub open spec fn absi(d: int) -> int {
    if d >= 0 {
        d
    } else {
        -d
    }
}

pub open spec fn in_seg_bounds(a: (int, int)) -> bool {
    -0x1000_0000_0000_0000 < a.0 < 0x1000_0000_0000_0000 && -0x1000_0000_0000_0000 < a.1
        < 0x1000_0000_0000_0000
}

/// The points of the segment from `a` to `b`, endpoint included, walking one
/// signum step at a time.
pub open spec fn seg_points(a: (int, int), b: (int, int)) -> Seq<(int, int)>
    decreases absi(b.0 - a.0) + absi(b.1 - a.1),
{
    if a == b {
        seq![a]
    } else {
        seq![a].add(seg_points((a.0 + sgn(b.0 - a.0), a.1 + sgn(b.1 - a.1)), b))
    }
}

impl Point {
    /// Every point from `self` to `other`, in walking order.
    pub fn line_to(&self, other: &Point) -> (r: Vec<Point>)
        requires
            in_seg_bounds((self.0 as int, self.1 as int)),
            in_seg_bounds((other.0 as int, other.1 as int)),
        ensures
            r@.map_values(|p: Point| (p.0 as int, p.1 as int)) == seg_points(
                (self.0 as int, self.1 as int),
                (other.0 as int, other.1 as int),
            ),
    {
        let ghost a0 = (self.0 as int, self.1 as int);
        let ghost b0 = (other.0 as int, other.1 as int);
        let mut pts: Vec<Point> = Vec::new();
        let mut x = self.0;
        let mut y = self.1;
        loop
            invariant
                a0 == (self.0 as int, self.1 as int),
                b0 == (other.0 as int, other.1 as int),
                in_seg_bounds((x as int, y as int)),
                in_seg_bounds(b0),
                seg_points(a0, b0) == pts@.map_values(|p: Point| (p.0 as int, p.1 as int)).add(
                    seg_points((x as int, y as int), b0),
                ),
            ensures
                pts@.map_values(|p: Point| (p.0 as int, p.1 as int)) == seg_points(a0, b0),
            decreases absi(b0.0 - x) + absi(b0.1 - y),
        {
            let ghost pre = pts@;
            pts.push(Point(x, y));
            proof {
                assert(pts@.map_values(|p: Point| (p.0 as int, p.1 as int)) =~= pre.map_values(
                    |p: Point| (p.0 as int, p.1 as int),
                ).push((x as int, y as int)));
            }
            if x == other.0 && y == other.1 {
                proof {
                    assert(seg_points((x as int, y as int), b0) =~= seq![(x as int, y as int)]);
                    assert(pre.map_values(|p: Point| (p.0 as int, p.1 as int)).push(
                        (x as int, y as int),
                    ) =~= pre.map_values(|p: Point| (p.0 as int, p.1 as int)).add(
                        seg_points((x as int, y as int), b0),
                    ));
                }
                return pts;
            }
            let dx: i64 = if other.0 > x {
                1
            } else if other.0 < x {
                -1
            } else {
                0
            };
            let dy: i64 = if other.1 > y {
                1
            } else if other.1 < y {
                -1
            } else {
                0
            };
            proof {
                let nxt = ((x as int) + sgn(b0.0 - x as int), (y as int) + sgn(b0.1 - y as int));
                assert(seg_points((x as int, y as int), b0) == seq![(x as int, y as int)].add(
                    seg_points(nxt, b0),
                ));
                assert(pre.map_values(|p: Point| (p.0 as int, p.1 as int)).push(
                    (x as int, y as int),
                ).add(seg_points(nxt, b0)) =~= pre.map_values(
                    |p: Point| (p.0 as int, p.1 as int),
                ).add(seg_points((x as int, y as int), b0)));
            }
            x = x + dx;
            y = y + dy;
        }
    }
}

/// All points covered by the first `k` segments, diagonals included only
/// when `diagonals` is set.
pub open spec fn covered(segs: Seq<(Point, Point)>, diagonals: bool, k: int) -> Seq<(int, int)>
    decreases k,
{
    if k <= 0 {
        Seq::empty()
    } else {
        let (a, b) = segs[k - 1];
        let ap = (a.0 as int, a.1 as int);
        let bp = (b.0 as int, b.1 as int);
        covered(segs, diagonals, k - 1).add(
            if diagonals || ap.0 == bp.0 || ap.1 == bp.1 {
                seg_points(ap, bp)
            } else {
                Seq::empty()
            },
        )
    }
}

/// Position `i` holds the first copy of its point.
pub open spec fn first_copy(s: Seq<(int, int)>, i: int) -> bool {
    forall|j: int| 0 <= j < i ==> (#[trigger] s[j]) != s[i]
}

/// Some later position repeats the point at `i`.
pub open spec fn repeats_later(s: Seq<(int, int)>, i: int) -> bool {
    exists|j: int| i < j < s.len() && s[j] == s[i]
}

/// Number of distinct points covered at least twice, among the first `k`
/// positions.
pub open spec fn overlap_count(s: Seq<(int, int)>, k: int) -> int
    decreases k,
{
    if k <= 0 {
        0
    } else {
        overlap_count(s, k - 1) + (if first_copy(s, k - 1) && repeats_later(s, k - 1) {
            1int
        } else {
            0int
        })
    }
}

pub open spec fn segs_ok(segs: Seq<(Point, Point)>) -> bool {
    forall|i: int|
        0 <= i < segs.len() ==> {
            let (a, b) = #[trigger] segs[i];
            in_seg_bounds((a.0 as int, a.1 as int)) && in_seg_bounds((b.0 as int, b.1 as int))
        }
}

fn count_overlaps(pts: &Vec<Point>) -> (r: usize)
    ensures
        r as int == overlap_count(pts@.map_values(|p: Point| (p.0 as int, p.1 as int)), pts@.len() as int),
{
    let ghost s = pts@.map_values(|p: Point| (p.0 as int, p.1 as int));
    let mut count: usize = 0;
    let mut i: usize = 0;
    while i < pts.len()
        invariant
            0 <= i <= pts@.len(),
            s == pts@.map_values(|p: Point| (p.0 as int, p.1 as int)),
            count as int == overlap_count(s, i as int),
            count <= i,
        decreases pts@.len() - i,
    {
        let p = pts[i];
        let mut earlier = false;
        let mut j: usize = 0;
        while j < i
            invariant
                0 <= j <= i < pts@.len(),
                s == pts@.map_values(|p2: Point| (p2.0 as int, p2.1 as int)),
                earlier == exists|k: int| 0 <= k < j && s[k] == s[i as int],
                p == pts@[i as int],
            decreases i - j,
        {
            if pts[j].0 == p.0 && pts[j].1 == p.1 {
                proof {
                    assert(s[j as int] == s[i as int]);
                }
                earlier = true;
            }
            j = j + 1;
        }
        let mut later = false;
        let mut j2: usize = i + 1;
        while j2 < pts.len()
            invariant
                i < pts@.len(),
                i + 1 <= j2,
                j2 <= pts@.len() || j2 == i + 1,
                s == pts@.map_values(|p2: Point| (p2.0 as int, p2.1 as int)),
                later == exists|k: int| i < k < j2 && s[k] == s[i as int],
                p == pts@[i as int],
            decreases pts@.len() - j2,
        {
            if pts[j2].0 == p.0 && pts[j2].1 == p.1 {
                proof {
                    assert(s[j2 as int] == s[i as int]);
                }
                later = true;
            }
            j2 = j2 + 1;
        }
        proof {
            assert((!earlier) == first_copy(s, i as int));
            if pts@.len() > i {
                assert(later == repeats_later(s, i as int));
            }
        }
        if !earlier && later {
            count = count + 1;
        }
        i = i + 1;
    }
    proof {
        assert(s.len() == pts@.len());
    }
    count
}

/// Collects the points of the chosen segments.
fn collect_points(input: &Vec<(Point, Point)>, diagonals: bool) -> (r: Vec<Point>)
    requires
        segs_ok(input@),
    ensures
        r@.map_values(|p: Point| (p.0 as int, p.1 as int)) == covered(
            input@,
            diagonals,
            input@.len() as int,
        ),
{
    let mut pts: Vec<Point> = Vec::new();
    let mut k: usize = 0;
    while k < input.len()
        invariant
            0 <= k <= input@.len(),
            segs_ok(input@),
            pts@.map_values(|p: Point| (p.0 as int, p.1 as int)) == covered(
                input@,
                diagonals,
                k as int,
            ),
        decreases input@.len() - k,
    {
        let (a, b) = input[k];
        let ghost pre = pts@;
        if diagonals || a.0 == b.0 || a.1 == b.1 {
            let mut seg = a.line_to(&b);
            let ghost segv = seg@;
            pts.append(&mut seg);
            proof {
                assert(pts@ =~= pre.add(segv));
                assert(pts@.map_values(|p: Point| (p.0 as int, p.1 as int)) =~= pre.map_values(
                    |p: Point| (p.0 as int, p.1 as int),
                ).add(segv.map_values(|p: Point| (p.0 as int, p.1 as int))));
            }
        } else {
            proof {
                assert(covered(input@, diagonals, k + 1) =~= covered(input@, diagonals, k as int));
            }
        }
        k = k + 1;
    }
    pts
}

/// Points covered by at least two horizontal or vertical segments.
pub fn part_1(input: &Vec<(Point, Point)>) -> (r: usize)
    requires
        segs_ok(input@),
    ensures
        ({
            let s = covered(input@, false, input@.len() as int);
            r as int == overlap_count(s, s.len() as int)
        }),
{
    let pts = collect_points(input, false);
    count_overlaps(&pts)
}

/// Points covered by at least two segments, diagonals included.
pub fn part_2(input: &Vec<(Point, Point)>) -> (r: usize)
    requires
        segs_ok(input@),
    ensures
        ({
            let s = covered(input@, true, input@.len() as int);
            r as int == overlap_count(s, s.len() as int)
        }),
{
    let pts = collect_points(input, true);
    count_overlaps(&pts)
}

} // verus!
