//! Reactor reboot: axis-aligned cuboid arithmetic over integer lattices.
//!
//! Cuboids are kept as a disjoint family; turning a region on or off first
//! carves every existing cuboid against the new one, so the family always
//! partitions the lit region.

use vstd::prelude::*;

verus! {

/// Coordinates this module works over; keeps every volume inside an `i64`.
pub const COORD_BOUND: i64 = 1_000_000;

/// An inclusive integer interval.
#[derive(Clone, Copy)]
pub struct Range(pub i64, pub i64);

impl Range {
    /// Non-empty and within the coordinate bound.
    pub open spec fn wf(self) -> bool {
        -COORD_BOUND <= self.0 <= self.1 <= COORD_BOUND
    }

    pub open spec fn spec_contains(self, i: int) -> bool {
        self.0 <= i <= self.1
    }

    pub open spec fn spec_length(self) -> int {
        self.1 - self.0 + 1
    }

    /// Number of integers in the interval.
    pub fn length(&self) -> (r: i64)
        requires
            self.wf(),
        ensures
            r == self.spec_length(),
            1 <= r <= 2 * COORD_BOUND + 1,
    {
        self.1 - self.0 + 1
    }

    /// Whether the interval holds `i`.
    pub fn contains(&self, i: i64) -> (r: bool)
        ensures
            r == self.spec_contains(i as int),
    {
        self.0 <= i && i <= self.1
    }

    /// Whether the two intervals share at least one integer.
    pub fn intersects(&self, other: &Range) -> (r: bool)
        requires
            self.wf(),
            other.wf(),
        ensures
            r == exists|i: int| self.spec_contains(i) && other.spec_contains(i),
    {
        let r = self.0 <= other.1 && self.1 >= other.0;
        proof {
            if r {
                let w = if self.0 >= other.0 {
                    self.0 as int
                } else {
                    other.0 as int
                };
                assert(self.spec_contains(w) && other.spec_contains(w));
            }
        }
        r
    }

    /// Cuts the interval at the boundaries of `other`: the pieces are
    /// disjoint, cover exactly the original interval, and each piece lies
    /// wholly inside `other` or wholly outside it.
    pub fn split(&self, other: &Range) -> (r: Vec<Range>)
        requires
            self.wf(),
            other.wf(),
            exists|i: int| self.spec_contains(i) && other.spec_contains(i),
        ensures
            1 <= r@.len() <= 3,
            forall|k: int| 0 <= k < r@.len() ==> (#[trigger] r@[k]).wf(),
            forall|i: int|
                #![trigger self.spec_contains(i)]
                self.spec_contains(i) <==> exists|k: int|
                    0 <= k < r@.len() && (#[trigger] r@[k]).spec_contains(i),
            forall|k1: int, k2: int, i: int|
                #![trigger r@[k1].spec_contains(i), r@[k2].spec_contains(i)]
                0 <= k1 < k2 < r@.len() ==> !(r@[k1].spec_contains(i) && r@[k2].spec_contains(i)),
            forall|k: int, i: int|
                0 <= k < r@.len() && (#[trigger] r@[k].spec_contains(i)) ==> self.spec_contains(i),
            forall|k: int|
                0 <= k < r@.len() ==> ((forall|i: int|
                    (#[trigger] r@[k]).spec_contains(i) ==> other.spec_contains(i)) || (forall|
                    i: int,
                |
                    (#[trigger] r@[k]).spec_contains(i) ==> !other.spec_contains(i))),
    {
        let mut r: Vec<Range> = Vec::new();
        if other.0 <= self.0 {
            if other.1 >= self.1 {
                r.push(*self);
            } else {
                r.push(Range(self.0, other.1));
                r.push(Range(other.1 + 1, self.1));
            }
        } else if other.1 >= self.1 {
            r.push(Range(self.0, other.0 - 1));
            r.push(Range(other.0, self.1));
        } else {
            r.push(Range(self.0, other.0 - 1));
            r.push(Range(other.0, other.1));
            r.push(Range(other.1 + 1, self.1));
        }
        proof {
            assert forall|i: int| self.spec_contains(i) implies exists|k: int|
                0 <= k < r@.len() && (#[trigger] r@[k]).spec_contains(i) by {
                if r@[0].spec_contains(i) {
                } else if r@.len() > 1 && r@[1].spec_contains(i) {
                } else {
                    assert(r@.len() == 3);
                    assert(r@[2].spec_contains(i));
                }
            }
        }
        r
    }
}

/// An axis-aligned box of lattice points.
#[derive(Clone, Copy)]
pub struct Cuboid {
    pub x: Range,
    pub y: Range,
    pub z: Range,
}

impl Cuboid {
    pub open spec fn wf(self) -> bool {
        self.x.wf() && self.y.wf() && self.z.wf()
    }

    pub open spec fn spec_contains(self, p: (int, int, int)) -> bool {
        self.x.spec_contains(p.0) && self.y.spec_contains(p.1) && self.z.spec_contains(p.2)
    }

    pub open spec fn spec_volume(self) -> int {
        self.x.spec_length() * self.y.spec_length() * self.z.spec_length()
    }

    /// Number of lattice points in the box.
    pub fn volume(&self) -> (r: i64)
        requires
            self.wf(),
        ensures
            r == self.spec_volume(),
            r >= 1,
    {
        let lx = self.x.length();
        let ly = self.y.length();
        let lz = self.z.length();
        proof {
            assert(lx * ly <= 4_000_004_000_001i64 && lx * ly >= 1) by (nonlinear_arith)
                requires
                    1 <= lx <= 2_000_001,
                    1 <= ly <= 2_000_001,
            ;
            assert((lx * ly) * lz <= 8_000_012_000_006_000_001i64 && (lx * ly) * lz >= 1)
                by (nonlinear_arith)
                requires
                    1 <= lx * ly <= 4_000_004_000_001i64,
                    1 <= lz <= 2_000_001,
            ;
        }
        lx * ly * lz
    }

    /// Whether the box holds the point.
    pub fn contains(&self, x: i64, y: i64, z: i64) -> (r: bool)
        ensures
            r == self.spec_contains((x as int, y as int, z as int)),
    {
        self.x.contains(x) && self.y.contains(y) && self.z.contains(z)
    }

    /// Whether the two boxes share at least one lattice point.
    pub fn intersects(&self, other: &Cuboid) -> (r: bool)
        requires
            self.wf(),
            other.wf(),
        ensures
            r == exists|p: (int, int, int)|
                self.spec_contains(p) && other.spec_contains(p),
    {
        let rx = self.x.intersects(&other.x);
        let ry = self.y.intersects(&other.y);
        let rz = self.z.intersects(&other.z);
        let r = rx && ry && rz;
        proof {
            if r {
                let px = choose|i: int| self.x.spec_contains(i) && other.x.spec_contains(i);
                let py = choose|i: int| self.y.spec_contains(i) && other.y.spec_contains(i);
                let pz = choose|i: int| self.z.spec_contains(i) && other.z.spec_contains(i);
                assert(self.spec_contains((px, py, pz)) && other.spec_contains((px, py, pz)));
            }
            if !r {
                assert forall|p: (int, int, int)|
                    !(self.spec_contains(p) && other.spec_contains(p)) by {
                    if self.spec_contains(p) && other.spec_contains(p) {
                        assert(self.x.spec_contains(p.0) && other.x.spec_contains(p.0));
                        assert(self.y.spec_contains(p.1) && other.y.spec_contains(p.1));
                        assert(self.z.spec_contains(p.2) && other.z.spec_contains(p.2));
                    }
                }
            }
        }
        r
    }

    /// Carves `other` out: the returned boxes are pairwise disjoint and
    /// cover exactly the points of `self` that are not in `other`.
    pub fn subtract(&self, other: &Cuboid) -> (r: Vec<Cuboid>)
        requires
            self.wf(),
            other.wf(),
        ensures
            forall|k: int| 0 <= k < r@.len() ==> (#[trigger] r@[k]).wf(),
            forall|p: (int, int, int)|
                #![trigger self.spec_contains(p)]
                (self.spec_contains(p) && !other.spec_contains(p)) <==> exists|k: int|
                    0 <= k < r@.len() && (#[trigger] r@[k]).spec_contains(p),
            forall|k1: int, k2: int, p: (int, int, int)|
                #![trigger r@[k1].spec_contains(p), r@[k2].spec_contains(p)]
                0 <= k1 < k2 < r@.len() ==> !(r@[k1].spec_contains(p) && r@[k2].spec_contains(p)),
            forall|k: int, p: (int, int, int)|
                #![trigger r@[k].spec_contains(p)]
                0 <= k < r@.len() && r@[k].spec_contains(p) ==> self.spec_contains(p)
                    && !other.spec_contains(p),
    {
        if !self.intersects(other) {
            let mut r: Vec<Cuboid> = Vec::new();
            r.push(*self);
            proof {
                assert forall|p: (int, int, int)|
                    (self.spec_contains(p) && !other.spec_contains(p)) <==> (exists|k: int|
                        0 <= k < r@.len() && (#[trigger] r@[k]).spec_contains(p)) by {
                    if self.spec_contains(p) {
                        assert(r@[0].spec_contains(p));
                    }
                }
                assert forall|k: int, p: (int, int, int)|
                    #![trigger r@[k].spec_contains(p)]
                    0 <= k < r@.len() && r@[k].spec_contains(p) implies self.spec_contains(p)
                    && !other.spec_contains(p) by {
                    assert(r@[k] == *self);
                }
            }
            return r;
        }
        proof {
            let w = choose|p: (int, int, int)| self.spec_contains(p) && other.spec_contains(p);
            assert(self.x.spec_contains(w.0) && other.x.spec_contains(w.0));
            assert(self.y.spec_contains(w.1) && other.y.spec_contains(w.1));
            assert(self.z.spec_contains(w.2) && other.z.spec_contains(w.2));
        }
        let xs = self.x.split(&other.x);
        let ys = self.y.split(&other.y);
        let zs = self.z.split(&other.z);
        proof {
            assert(axis_split_ok(self.x, other.x, xs@));
            assert(axis_split_ok(self.y, other.y, ys@));
            assert(axis_split_ok(self.z, other.z, zs@));
            lemma_axis_pieces_distinct(self.x, other.x, xs@);
            lemma_axis_pieces_distinct(self.y, other.y, ys@);
            lemma_axis_pieces_distinct(self.z, other.z, zs@);
        }
        let mut r: Vec<Cuboid> = Vec::new();
        let mut ix: usize = 0;
        while ix < xs.len()
            invariant
                0 <= ix <= xs@.len(),
                forall|k: int| 0 <= k < xs@.len() ==> (#[trigger] xs@[k]).wf(),
                forall|k: int| 0 <= k < ys@.len() ==> (#[trigger] ys@[k]).wf(),
                forall|k: int| 0 <= k < zs@.len() ==> (#[trigger] zs@[k]).wf(),
                forall|k1: int, k2: int|
                    0 <= k1 < k2 < xs@.len() ==> (#[trigger] xs@[k1]) != (#[trigger] xs@[k2]),
                forall|k1: int, k2: int|
                    0 <= k1 < k2 < ys@.len() ==> (#[trigger] ys@[k1]) != (#[trigger] ys@[k2]),
                forall|k1: int, k2: int|
                    0 <= k1 < k2 < zs@.len() ==> (#[trigger] zs@[k1]) != (#[trigger] zs@[k2]),
                forall|k: int|
                    #![trigger r@[k]]
                    0 <= k < r@.len() ==> is_any_box(r@[k], xs@, ys@, zs@, *other, ix as int),
                forall|a: int, b: int, c: int|
                    #![trigger combo_box(xs@, ys@, zs@, a, b, c)]
                    0 <= a < ix && 0 <= b < ys@.len() && 0 <= c < zs@.len() && corner_kept(
                        *other,
                        xs@,
                        ys@,
                        zs@,
                        a,
                        b,
                        c,
                    ) ==> has_box(r@, combo_box(xs@, ys@, zs@, a, b, c)),
                forall|k1: int, k2: int|
                    0 <= k1 < k2 < r@.len() ==> (#[trigger] r@[k1]) != (#[trigger] r@[k2]),
            decreases xs@.len() - ix,
        {
            let ghost r_pre = r@;
            proof {
                assert forall|k: int, b: int, c: int|
                    #![trigger r@[k], ys@[b], zs@[c]]
                    0 <= k < r@.len() && 0 <= b < ys@.len() && 0 <= c < zs@.len() implies r@[k]
                    != combo_box(xs@, ys@, zs@, ix as int, b, c) by {
                    let (a0, b0, c0) = choose|a0: int, b0: int, c0: int|
                        0 <= a0 < ix && 0 <= b0 < ys@.len() && 0 <= c0 < zs@.len() && r@[k]
                            == combo_box(xs@, ys@, zs@, a0, b0, c0);
                    if r@[k] == combo_box(xs@, ys@, zs@, ix as int, b, c) {
                        assert(xs@[a0] == xs@[ix as int]);
                    }
                }
            }
            push_plane(&mut r, &xs, &ys, &zs, ix, other);
            proof {
                assert forall|k: int|
                    #![trigger r@[k]]
                    0 <= k < r@.len() implies is_any_box(r@[k], xs@, ys@, zs@, *other, ix + 1) by {
                    if k < r_pre.len() {
                        assert(r@[k] == r_pre[k]);
                        assert(is_any_box(r_pre[k], xs@, ys@, zs@, *other, ix as int));
                        lemma_any_box_widen(r_pre[k], xs@, ys@, zs@, *other, ix as int, ix + 1);
                    } else {
                        assert(is_plane_box(r@[k], xs@, ys@, zs@, *other, ix as int, ys@.len() as int));
                        lemma_plane_to_any(r@[k], xs@, ys@, zs@, *other, ix as int);
                    }
                }
                assert forall|a: int, b: int, c: int|
                    #![trigger combo_box(xs@, ys@, zs@, a, b, c)]
                    0 <= a < ix + 1 && 0 <= b < ys@.len() && 0 <= c < zs@.len() && corner_kept(
                        *other,
                        xs@,
                        ys@,
                        zs@,
                        a,
                        b,
                        c,
                    ) implies has_box(r@, combo_box(xs@, ys@, zs@, a, b, c)) by {
                    if a < ix {
                        lemma_has_box_grow(r_pre, r@, combo_box(xs@, ys@, zs@, a, b, c));
                    }
                }
            }
            ix = ix + 1;
        }
        proof {
            assert forall|k: int| 0 <= k < r@.len() implies (#[trigger] r@[k]).wf() by {
                let (a, b, c) = choose|a: int, b: int, c: int|
                    0 <= a < xs@.len() && 0 <= b < ys@.len() && 0 <= c < zs@.len() && r@[k]
                        == combo_box(xs@, ys@, zs@, a, b, c);
            }
            lemma_subtract_pieces(*self, *other, xs@, ys@, zs@, r@);
        }
        r
    }
}

/// The box made of one split piece per axis.
pub open spec fn combo_box(
    xs: Seq<Range>,
    ys: Seq<Range>,
    zs: Seq<Range>,
    a: int,
    b: int,
    c: int,
) -> Cuboid {
    Cuboid { x: xs[a], y: ys[b], z: zs[c] }
}

/// The combination's corner falls outside `other`, so the whole box does.
pub open spec fn corner_kept(
    other: Cuboid,
    xs: Seq<Range>,
    ys: Seq<Range>,
    zs: Seq<Range>,
    a: int,
    b: int,
    c: int,
) -> bool {
    !other.spec_contains((xs[a].0 as int, ys[b].0 as int, zs[c].0 as int))
}

/// `bx` occurs among the boxes of `r`.
pub open spec fn has_box(r: Seq<Cuboid>, bx: Cuboid) -> bool {
    exists|k: int| 0 <= k < r.len() && r[k] == bx
}

/// `rk` is a kept combination with x-piece `a`, y-piece `b` and some z-piece
/// below `hi`.
pub open spec fn is_row_box(
    rk: Cuboid,
    xs: Seq<Range>,
    ys: Seq<Range>,
    zs: Seq<Range>,
    other: Cuboid,
    a: int,
    b: int,
    hi: int,
) -> bool {
    exists|c: int|
        0 <= c < hi && c < zs.len() && rk == combo_box(xs, ys, zs, a, b, c) && corner_kept(
            other,
            xs,
            ys,
            zs,
            a,
            b,
            c,
        )
}

/// `rk` is a kept combination with x-piece `a` and y-piece below `bhi`.
pub open spec fn is_plane_box(
    rk: Cuboid,
    xs: Seq<Range>,
    ys: Seq<Range>,
    zs: Seq<Range>,
    other: Cuboid,
    a: int,
    bhi: int,
) -> bool {
    exists|b: int, c: int|
        0 <= b < bhi && b < ys.len() && 0 <= c < zs.len() && rk == combo_box(xs, ys, zs, a, b, c)
            && corner_kept(other, xs, ys, zs, a, b, c)
}

/// `rk` is a kept combination with x-piece below `ahi`.
pub open spec fn is_any_box(
    rk: Cuboid,
    xs: Seq<Range>,
    ys: Seq<Range>,
    zs: Seq<Range>,
    other: Cuboid,
    ahi: int,
) -> bool {
    exists|a: int, b: int, c: int|
        0 <= a < ahi && a < xs.len() && 0 <= b < ys.len() && 0 <= c < zs.len() && rk == combo_box(
            xs,
            ys,
            zs,
            a,
            b,
            c,
        ) && corner_kept(other, xs, ys, zs, a, b, c)
}

proof fn lemma_row_box_widen(
    rk: Cuboid,
    xs: Seq<Range>,
    ys: Seq<Range>,
    zs: Seq<Range>,
    other: Cuboid,
    a: int,
    b: int,
    h1: int,
    h2: int,
)
    requires
        is_row_box(rk, xs, ys, zs, other, a, b, h1),
        h1 <= h2,
    ensures
        is_row_box(rk, xs, ys, zs, other, a, b, h2),
{
    let c = choose|c: int|
        0 <= c < h1 && c < zs.len() && rk == combo_box(xs, ys, zs, a, b, c) && corner_kept(
            other,
            xs,
            ys,
            zs,
            a,
            b,
            c,
        );
    assert(0 <= c < h2 && c < zs.len() && rk == combo_box(xs, ys, zs, a, b, c) && corner_kept(
        other,
        xs,
        ys,
        zs,
        a,
        b,
        c,
    ));
}

proof fn lemma_row_to_plane(
    rk: Cuboid,
    xs: Seq<Range>,
    ys: Seq<Range>,
    zs: Seq<Range>,
    other: Cuboid,
    a: int,
    b: int,
    bhi: int,
)
    requires
        is_row_box(rk, xs, ys, zs, other, a, b, zs.len() as int),
        0 <= b < bhi,
        b < ys.len(),
    ensures
        is_plane_box(rk, xs, ys, zs, other, a, bhi),
{
    let c = choose|c: int|
        0 <= c < zs.len() && rk == combo_box(xs, ys, zs, a, b, c) && corner_kept(
            other,
            xs,
            ys,
            zs,
            a,
            b,
            c,
        );
    assert(0 <= b < bhi && b < ys.len() && 0 <= c < zs.len() && rk == combo_box(xs, ys, zs, a, b, c)
        && corner_kept(other, xs, ys, zs, a, b, c));
}

proof fn lemma_plane_box_widen(
    rk: Cuboid,
    xs: Seq<Range>,
    ys: Seq<Range>,
    zs: Seq<Range>,
    other: Cuboid,
    a: int,
    h1: int,
    h2: int,
)
    requires
        is_plane_box(rk, xs, ys, zs, other, a, h1),
        h1 <= h2,
    ensures
        is_plane_box(rk, xs, ys, zs, other, a, h2),
{
    let (b, c) = choose|b: int, c: int|
        0 <= b < h1 && b < ys.len() && 0 <= c < zs.len() && rk == combo_box(xs, ys, zs, a, b, c)
            && corner_kept(other, xs, ys, zs, a, b, c);
    assert(0 <= b < h2 && b < ys.len() && 0 <= c < zs.len() && rk == combo_box(xs, ys, zs, a, b, c)
        && corner_kept(other, xs, ys, zs, a, b, c));
}

proof fn lemma_plane_to_any(
    rk: Cuboid,
    xs: Seq<Range>,
    ys: Seq<Range>,
    zs: Seq<Range>,
    other: Cuboid,
    a: int,
)
    requires
        is_plane_box(rk, xs, ys, zs, other, a, ys.len() as int),
        0 <= a < xs.len(),
    ensures
        is_any_box(rk, xs, ys, zs, other, a + 1),
{
    let (b, c) = choose|b: int, c: int|
        0 <= b < ys.len() && 0 <= c < zs.len() && rk == combo_box(xs, ys, zs, a, b, c)
            && corner_kept(other, xs, ys, zs, a, b, c);
    assert(0 <= a < a + 1 && a < xs.len() && 0 <= b < ys.len() && 0 <= c < zs.len() && rk
        == combo_box(xs, ys, zs, a, b, c) && corner_kept(other, xs, ys, zs, a, b, c));
}

proof fn lemma_any_box_widen(
    rk: Cuboid,
    xs: Seq<Range>,
    ys: Seq<Range>,
    zs: Seq<Range>,
    other: Cuboid,
    h1: int,
    h2: int,
)
    requires
        is_any_box(rk, xs, ys, zs, other, h1),
        h1 <= h2,
    ensures
        is_any_box(rk, xs, ys, zs, other, h2),
{
    let (a, b, c) = choose|a: int, b: int, c: int|
        0 <= a < h1 && a < xs.len() && 0 <= b < ys.len() && 0 <= c < zs.len() && rk == combo_box(
            xs,
            ys,
            zs,
            a,
            b,
            c,
        ) && corner_kept(other, xs, ys, zs, a, b, c);
    assert(0 <= a < h2 && a < xs.len() && 0 <= b < ys.len() && 0 <= c < zs.len() && rk == combo_box(
        xs,
        ys,
        zs,
        a,
        b,
        c,
    ) && corner_kept(other, xs, ys, zs, a, b, c));
}

/// A box once present stays present when the family only grows at the end.
proof fn lemma_has_box_grow(r1: Seq<Cuboid>, r2: Seq<Cuboid>, bx: Cuboid)
    requires
        has_box(r1, bx),
        r1.len() <= r2.len(),
        forall|k: int| 0 <= k < r1.len() ==> (#[trigger] r2[k]) == r1[k],
    ensures
        has_box(r2, bx),
{
    let k = choose|k: int| 0 <= k < r1.len() && r1[k] == bx;
    assert(0 <= k < r2.len() && r2[k] == bx);
}

/// Pushes every kept combination with x-piece `ix`.
fn push_plane(
    r: &mut Vec<Cuboid>,
    xs: &Vec<Range>,
    ys: &Vec<Range>,
    zs: &Vec<Range>,
    ix: usize,
    other: &Cuboid,
)
    requires
        ix < xs@.len(),
        forall|k1: int, k2: int|
            0 <= k1 < k2 < ys@.len() ==> (#[trigger] ys@[k1]) != (#[trigger] ys@[k2]),
        forall|k1: int, k2: int|
            0 <= k1 < k2 < zs@.len() ==> (#[trigger] zs@[k1]) != (#[trigger] zs@[k2]),
        forall|k1: int, k2: int|
            0 <= k1 < k2 < old(r)@.len() ==> (#[trigger] old(r)@[k1]) != (#[trigger] old(r)@[k2]),
        forall|k: int, b: int, c: int|
            #![trigger old(r)@[k], ys@[b], zs@[c]]
            0 <= k < old(r)@.len() && 0 <= b < ys@.len() && 0 <= c < zs@.len() ==> old(r)@[k]
                != combo_box(xs@, ys@, zs@, ix as int, b, c),
    ensures
        final(r)@.len() >= old(r)@.len(),
        forall|k: int| 0 <= k < old(r)@.len() ==> (#[trigger] final(r)@[k]) == old(r)@[k],
        forall|k: int|
            #![trigger final(r)@[k]]
            old(r)@.len() <= k < final(r)@.len() ==> is_plane_box(
                final(r)@[k],
                xs@,
                ys@,
                zs@,
                *other,
                ix as int,
                ys@.len() as int,
            ),
        forall|b: int, c: int|
            #![trigger ys@[b], zs@[c]]
            0 <= b < ys@.len() && 0 <= c < zs@.len() && corner_kept(
                *other,
                xs@,
                ys@,
                zs@,
                ix as int,
                b,
                c,
            ) ==> has_box(final(r)@, combo_box(xs@, ys@, zs@, ix as int, b, c)),
        forall|k1: int, k2: int|
            0 <= k1 < k2 < final(r)@.len() ==> (#[trigger] final(r)@[k1]) != (#[trigger] final(r)@[k2]),
{
    let ghost base = old(r)@;
    let mut iy: usize = 0;
    while iy < ys.len()
        invariant
            0 <= iy <= ys@.len(),
            ix < xs@.len(),
            r@.len() >= base.len(),
            forall|k1: int, k2: int|
                0 <= k1 < k2 < ys@.len() ==> (#[trigger] ys@[k1]) != (#[trigger] ys@[k2]),
            forall|k1: int, k2: int|
                0 <= k1 < k2 < zs@.len() ==> (#[trigger] zs@[k1]) != (#[trigger] zs@[k2]),
            forall|k: int| 0 <= k < base.len() ==> (#[trigger] r@[k]) == base[k],
            forall|k: int, b: int, c: int|
                #![trigger base[k], ys@[b], zs@[c]]
                0 <= k < base.len() && 0 <= b < ys@.len() && 0 <= c < zs@.len() ==> base[k]
                    != combo_box(xs@, ys@, zs@, ix as int, b, c),
            forall|k: int|
                #![trigger r@[k]]
                base.len() <= k < r@.len() ==> is_plane_box(
                    r@[k],
                    xs@,
                    ys@,
                    zs@,
                    *other,
                    ix as int,
                    iy as int,
                ),
            forall|b: int, c: int|
                #![trigger ys@[b], zs@[c]]
                0 <= b < iy && 0 <= c < zs@.len() && corner_kept(
                    *other,
                    xs@,
                    ys@,
                    zs@,
                    ix as int,
                    b,
                    c,
                ) ==> has_box(r@, combo_box(xs@, ys@, zs@, ix as int, b, c)),
            forall|k1: int, k2: int|
                0 <= k1 < k2 < r@.len() ==> (#[trigger] r@[k1]) != (#[trigger] r@[k2]),
        decreases ys@.len() - iy,
    {
        let ghost r_pre = r@;
        proof {
            assert forall|k: int, c: int|
                #![trigger r@[k], zs@[c]]
                0 <= k < r@.len() && 0 <= c < zs@.len() implies r@[k] != combo_box(
                xs@,
                ys@,
                zs@,
                ix as int,
                iy as int,
                c,
            ) by {
                if k < base.len() {
                    assert(base[k] != combo_box(xs@, ys@, zs@, ix as int, iy as int, c));
                } else {
                    let (b0, c0) = choose|b0: int, c0: int|
                        0 <= b0 < iy && b0 < ys@.len() && 0 <= c0 < zs@.len() && r@[k] == combo_box(
                            xs@,
                            ys@,
                            zs@,
                            ix as int,
                            b0,
                            c0,
                        ) && corner_kept(*other, xs@, ys@, zs@, ix as int, b0, c0);
                    if r@[k] == combo_box(xs@, ys@, zs@, ix as int, iy as int, c) {
                        assert(ys@[b0] == ys@[iy as int]);
                    }
                }
            }
        }
        push_row(r, xs, ys, zs, ix, iy, other);
        proof {
            assert forall|k: int|
                #![trigger r@[k]]
                base.len() <= k < r@.len() implies is_plane_box(
                r@[k],
                xs@,
                ys@,
                zs@,
                *other,
                ix as int,
                iy + 1,
            ) by {
                if k < r_pre.len() {
                    assert(r@[k] == r_pre[k]);
                    assert(is_plane_box(r_pre[k], xs@, ys@, zs@, *other, ix as int, iy as int));
                    lemma_plane_box_widen(r_pre[k], xs@, ys@, zs@, *other, ix as int, iy as int, iy + 1);
                } else {
                    assert(is_row_box(r@[k], xs@, ys@, zs@, *other, ix as int, iy as int, zs@.len() as int));
                    lemma_row_to_plane(r@[k], xs@, ys@, zs@, *other, ix as int, iy as int, iy + 1);
                }
            }
            assert forall|b: int, c: int|
                #![trigger ys@[b], zs@[c]]
                0 <= b < iy + 1 && 0 <= c < zs@.len() && corner_kept(
                    *other,
                    xs@,
                    ys@,
                    zs@,
                    ix as int,
                    b,
                    c,
                ) implies has_box(r@, combo_box(xs@, ys@, zs@, ix as int, b, c)) by {
                if b < iy {
                    lemma_has_box_grow(r_pre, r@, combo_box(xs@, ys@, zs@, ix as int, b, c));
                }
            }
        }
        iy = iy + 1;
    }
}

/// Pushes every kept combination with x-piece `ix` and y-piece `iy`.
fn push_row(
    r: &mut Vec<Cuboid>,
    xs: &Vec<Range>,
    ys: &Vec<Range>,
    zs: &Vec<Range>,
    ix: usize,
    iy: usize,
    other: &Cuboid,
)
    requires
        ix < xs@.len(),
        iy < ys@.len(),
        forall|k1: int, k2: int|
            0 <= k1 < k2 < zs@.len() ==> (#[trigger] zs@[k1]) != (#[trigger] zs@[k2]),
        forall|k1: int, k2: int|
            0 <= k1 < k2 < old(r)@.len() ==> (#[trigger] old(r)@[k1]) != (#[trigger] old(r)@[k2]),
        forall|k: int, c: int|
            #![trigger old(r)@[k], zs@[c]]
            0 <= k < old(r)@.len() && 0 <= c < zs@.len() ==> old(r)@[k] != combo_box(
                xs@,
                ys@,
                zs@,
                ix as int,
                iy as int,
                c,
            ),
    ensures
        final(r)@.len() >= old(r)@.len(),
        forall|k: int| 0 <= k < old(r)@.len() ==> (#[trigger] final(r)@[k]) == old(r)@[k],
        forall|k: int|
            #![trigger final(r)@[k]]
            old(r)@.len() <= k < final(r)@.len() ==> is_row_box(
                final(r)@[k],
                xs@,
                ys@,
                zs@,
                *other,
                ix as int,
                iy as int,
                zs@.len() as int,
            ),
        forall|c: int|
            #![trigger zs@[c]]
            0 <= c < zs@.len() && corner_kept(*other, xs@, ys@, zs@, ix as int, iy as int, c)
                ==> has_box(final(r)@, combo_box(xs@, ys@, zs@, ix as int, iy as int, c)),
        forall|k1: int, k2: int|
            0 <= k1 < k2 < final(r)@.len() ==> (#[trigger] final(r)@[k1]) != (#[trigger] final(r)@[k2]),
{
    let ghost base = old(r)@;
    let xa = xs[ix];
    let ya = ys[iy];
    let mut iz: usize = 0;
    while iz < zs.len()
        invariant
            0 <= iz <= zs@.len(),
            ix < xs@.len(),
            iy < ys@.len(),
            xa == xs@[ix as int],
            ya == ys@[iy as int],
            r@.len() >= base.len(),
            forall|k1: int, k2: int|
                0 <= k1 < k2 < zs@.len() ==> (#[trigger] zs@[k1]) != (#[trigger] zs@[k2]),
            forall|k: int| 0 <= k < base.len() ==> (#[trigger] r@[k]) == base[k],
            forall|k: int, c: int|
                #![trigger base[k], zs@[c]]
                0 <= k < base.len() && 0 <= c < zs@.len() ==> base[k] != combo_box(
                    xs@,
                    ys@,
                    zs@,
                    ix as int,
                    iy as int,
                    c,
                ),
            forall|k1: int, k2: int|
                0 <= k1 < k2 < base.len() ==> (#[trigger] base[k1]) != (#[trigger] base[k2]),
            forall|k: int|
                #![trigger r@[k]]
                base.len() <= k < r@.len() ==> is_row_box(
                    r@[k],
                    xs@,
                    ys@,
                    zs@,
                    *other,
                    ix as int,
                    iy as int,
                    iz as int,
                ),
            forall|c: int|
                #![trigger zs@[c]]
                0 <= c < iz && corner_kept(*other, xs@, ys@, zs@, ix as int, iy as int, c)
                    ==> has_box(r@, combo_box(xs@, ys@, zs@, ix as int, iy as int, c)),
            forall|k1: int, k2: int|
                0 <= k1 < k2 < r@.len() ==> (#[trigger] r@[k1]) != (#[trigger] r@[k2]),
        decreases zs@.len() - iz,
    {
        let ghost r_pre = r@;
        let cand = Cuboid { x: xa, y: ya, z: zs[iz] };
        let kept = !other.contains(cand.x.0, cand.y.0, cand.z.0);
        proof {
            assert(cand == combo_box(xs@, ys@, zs@, ix as int, iy as int, iz as int));
            assert(kept == corner_kept(*other, xs@, ys@, zs@, ix as int, iy as int, iz as int));
        }
        if kept {
            r.push(cand);
            proof {
                assert(r@[r@.len() - 1] == combo_box(xs@, ys@, zs@, ix as int, iy as int, iz as int));
                assert forall|k: int| 0 <= k < r@.len() - 1 implies (#[trigger] r@[k]) != cand by {
                    assert(r@[k] == r_pre[k]);
                    if k < base.len() {
                        assert(base[k] != combo_box(xs@, ys@, zs@, ix as int, iy as int, iz as int));
                    } else {
                        let c = choose|c: int|
                            0 <= c < iz && c < zs@.len() && r_pre[k] == combo_box(
                                xs@,
                                ys@,
                                zs@,
                                ix as int,
                                iy as int,
                                c,
                            ) && corner_kept(*other, xs@, ys@, zs@, ix as int, iy as int, c);
                        assert(zs@[c] != zs@[iz as int]);
                    }
                }
            }
        }
        proof {
            assert forall|k: int|
                #![trigger r@[k]]
                base.len() <= k < r@.len() implies is_row_box(
                r@[k],
                xs@,
                ys@,
                zs@,
                *other,
                ix as int,
                iy as int,
                iz + 1,
            ) by {
                if k < r_pre.len() {
                    assert(r@[k] == r_pre[k]);
                    assert(is_row_box(r_pre[k], xs@, ys@, zs@, *other, ix as int, iy as int, iz as int));
                    lemma_row_box_widen(
                        r_pre[k],
                        xs@,
                        ys@,
                        zs@,
                        *other,
                        ix as int,
                        iy as int,
                        iz as int,
                        iz + 1,
                    );
                } else {
                    assert(r@[k] == cand);
                    assert(0 <= (iz as int) && (iz as int) < iz + 1 && (iz as int) < zs@.len() && r@[k] == combo_box(
                        xs@,
                        ys@,
                        zs@,
                        ix as int,
                        iy as int,
                        iz as int,
                    ) && corner_kept(*other, xs@, ys@, zs@, ix as int, iy as int, iz as int));
                }
            }
            assert forall|c: int|
                #![trigger zs@[c]]
                0 <= c < iz + 1 && corner_kept(*other, xs@, ys@, zs@, ix as int, iy as int, c) implies has_box(
                r@,
                combo_box(xs@, ys@, zs@, ix as int, iy as int, c),
            ) by {
                if c < iz {
                    lemma_has_box_grow(
                        r_pre,
                        r@,
                        combo_box(xs@, ys@, zs@, ix as int, iy as int, c),
                    );
                } else {
                    assert(kept);
                    assert(r@[r@.len() - 1] == combo_box(xs@, ys@, zs@, ix as int, iy as int, c));
                }
            }
        }
        iz = iz + 1;
    }
}

/// The carved pieces of a box are disjoint and cover exactly the points kept
/// out of `other`, given the per-axis split properties and the corner filter.
proof fn lemma_subtract_pieces(
    sc: Cuboid,
    other: Cuboid,
    xs: Seq<Range>,
    ys: Seq<Range>,
    zs: Seq<Range>,
    r: Seq<Cuboid>,
)
    requires
        sc.wf(),
        other.wf(),
        axis_split_ok(sc.x, other.x, xs),
        axis_split_ok(sc.y, other.y, ys),
        axis_split_ok(sc.z, other.z, zs),
        forall|k: int|
            #![trigger r[k]]
            0 <= k < r.len() ==> is_any_box(r[k], xs, ys, zs, other, xs.len() as int),
        forall|a: int, b: int, c: int|
            #![trigger combo_box(xs, ys, zs, a, b, c)]
            0 <= a < xs.len() && 0 <= b < ys.len() && 0 <= c < zs.len() && corner_kept(
                other,
                xs,
                ys,
                zs,
                a,
                b,
                c,
            ) ==> has_box(r, combo_box(xs, ys, zs, a, b, c)),
        forall|k1: int, k2: int| 0 <= k1 < k2 < r.len() ==> (#[trigger] r[k1]) != (#[trigger] r[k2]),
    ensures
        forall|p: (int, int, int)|
            #![trigger sc.spec_contains(p)]
            (sc.spec_contains(p) && !other.spec_contains(p)) <==> exists|k: int|
                0 <= k < r.len() && (#[trigger] r[k]).spec_contains(p),
        forall|k1: int, k2: int, p: (int, int, int)|
            #![trigger r[k1].spec_contains(p), r[k2].spec_contains(p)]
            0 <= k1 < k2 < r.len() ==> !(r[k1].spec_contains(p) && r[k2].spec_contains(p)),
        forall|k: int, p: (int, int, int)|
            #![trigger r[k].spec_contains(p)]
            0 <= k < r.len() && r[k].spec_contains(p) ==> sc.spec_contains(p)
                && !other.spec_contains(p),
{
    assert forall|k: int, p: (int, int, int)|
        #![trigger r[k].spec_contains(p)]
        0 <= k < r.len() && r[k].spec_contains(p) implies sc.spec_contains(p)
        && !other.spec_contains(p) by {
        let (a, b, c) = choose|a: int, b: int, c: int|
            0 <= a < xs.len() && 0 <= b < ys.len() && 0 <= c < zs.len() && r[k] == combo_box(
                xs,
                ys,
                zs,
                a,
                b,
                c,
            ) && corner_kept(other, xs, ys, zs, a, b, c);
        assert(xs[a].spec_contains(p.0) && ys[b].spec_contains(p.1) && zs[c].spec_contains(p.2));
        assert(sc.x.spec_contains(p.0) && sc.y.spec_contains(p.1) && sc.z.spec_contains(p.2));
        let corner = (xs[a].0 as int, ys[b].0 as int, zs[c].0 as int);
        assert(!other.spec_contains(p)) by {
            if !other.x.spec_contains(corner.0) {
                assert(forall|i: int|
                    (#[trigger] xs[a].spec_contains(i)) ==> !other.x.spec_contains(i));
            } else if !other.y.spec_contains(corner.1) {
                assert(forall|i: int|
                    (#[trigger] ys[b].spec_contains(i)) ==> !other.y.spec_contains(i));
            } else {
                assert(!other.z.spec_contains(corner.2));
                assert(forall|i: int|
                    (#[trigger] zs[c].spec_contains(i)) ==> !other.z.spec_contains(i));
            }
        }
    }
    assert forall|p: (int, int, int)|
        (sc.spec_contains(p) && !other.spec_contains(p)) implies exists|k: int|
        0 <= k < r.len() && (#[trigger] r[k]).spec_contains(p) by {
        let a = choose|a: int| 0 <= a < xs.len() && (#[trigger] xs[a]).spec_contains(p.0);
        let b = choose|b: int| 0 <= b < ys.len() && (#[trigger] ys[b]).spec_contains(p.1);
        let c = choose|c: int| 0 <= c < zs.len() && (#[trigger] zs[c]).spec_contains(p.2);
        let corner = (xs[a].0 as int, ys[b].0 as int, zs[c].0 as int);
        assert(xs[a].spec_contains(corner.0));
        assert(ys[b].spec_contains(corner.1));
        assert(zs[c].spec_contains(corner.2));
        assert(corner_kept(other, xs, ys, zs, a, b, c)) by {
            if !other.x.spec_contains(p.0) {
                assert(!other.x.spec_contains(corner.0));
            } else if !other.y.spec_contains(p.1) {
                assert(!other.y.spec_contains(corner.1));
            } else {
                assert(!other.z.spec_contains(p.2));
                assert(!other.z.spec_contains(corner.2));
            }
        }
        assert(has_box(r, combo_box(xs, ys, zs, a, b, c)));
        let k = choose|k: int| 0 <= k < r.len() && r[k] == combo_box(xs, ys, zs, a, b, c);
        assert(r[k].spec_contains(p));
    }
    assert forall|p: (int, int, int)| (exists|k: int|
        0 <= k < r.len() && (#[trigger] r[k]).spec_contains(p)) implies (sc.spec_contains(p)
        && !other.spec_contains(p)) by {
        let k = choose|k: int| 0 <= k < r.len() && (#[trigger] r[k]).spec_contains(p);
        let (a, b, c) = choose|a: int, b: int, c: int|
            0 <= a < xs.len() && 0 <= b < ys.len() && 0 <= c < zs.len() && r[k] == combo_box(
                xs,
                ys,
                zs,
                a,
                b,
                c,
            ) && corner_kept(other, xs, ys, zs, a, b, c);
        assert(xs[a].spec_contains(p.0) && ys[b].spec_contains(p.1) && zs[c].spec_contains(p.2));
        assert(sc.x.spec_contains(p.0) && sc.y.spec_contains(p.1) && sc.z.spec_contains(p.2));
        let corner = (xs[a].0 as int, ys[b].0 as int, zs[c].0 as int);
        assert(!other.spec_contains(p)) by {
            if !other.x.spec_contains(corner.0) {
                assert(forall|i: int|
                    (#[trigger] xs[a].spec_contains(i)) ==> !other.x.spec_contains(i));
            } else if !other.y.spec_contains(corner.1) {
                assert(forall|i: int|
                    (#[trigger] ys[b].spec_contains(i)) ==> !other.y.spec_contains(i));
            } else {
                assert(!other.z.spec_contains(corner.2));
                assert(forall|i: int|
                    (#[trigger] zs[c].spec_contains(i)) ==> !other.z.spec_contains(i));
            }
        }
    }
    assert forall|k1: int, k2: int, p: (int, int, int)|
        #![trigger r[k1].spec_contains(p), r[k2].spec_contains(p)]
        0 <= k1 < k2 < r.len() implies !(r[k1].spec_contains(p) && r[k2].spec_contains(p)) by {
        if r[k1].spec_contains(p) && r[k2].spec_contains(p) {
            let (a1, b1, c1) = choose|a: int, b: int, c: int|
                0 <= a < xs.len() && 0 <= b < ys.len() && 0 <= c < zs.len() && r[k1] == combo_box(
                    xs,
                    ys,
                    zs,
                    a,
                    b,
                    c,
                ) && corner_kept(other, xs, ys, zs, a, b, c);
            let (a2, b2, c2) = choose|a: int, b: int, c: int|
                0 <= a < xs.len() && 0 <= b < ys.len() && 0 <= c < zs.len() && r[k2] == combo_box(
                    xs,
                    ys,
                    zs,
                    a,
                    b,
                    c,
                ) && corner_kept(other, xs, ys, zs, a, b, c);
            assert(xs[a1].spec_contains(p.0) && xs[a2].spec_contains(p.0));
            assert(a1 == a2);
            assert(ys[b1].spec_contains(p.1) && ys[b2].spec_contains(p.1));
            assert(b1 == b2);
            assert(zs[c1].spec_contains(p.2) && zs[c2].spec_contains(p.2));
            assert(c1 == c2);
            assert(r[k1] == r[k2]);
            assert(false);
        }
    }
}

/// Whether the point is lit after the given reboot steps: the last step
/// whose cuboid holds the point decides.
pub open spec fn lit(steps: Seq<(bool, Cuboid)>, p: (int, int, int)) -> bool
    decreases steps.len(),
{
    if steps.len() == 0 {
        false
    } else if steps.last().1.spec_contains(p) {
        steps.last().0
    } else {
        lit(steps.drop_last(), p)
    }
}

/// Some box of the family holds the point.
pub open spec fn covers(cs: Seq<Cuboid>, p: (int, int, int)) -> bool {
    exists|k: int| 0 <= k < cs.len() && (#[trigger] cs[k]).spec_contains(p)
}

/// Some of the first `n` boxes holds the point.
pub open spec fn covers_upto(cs: Seq<Cuboid>, n: int, p: (int, int, int)) -> bool {
    exists|k: int| 0 <= k < n && k < cs.len() && (#[trigger] cs[k]).spec_contains(p)
}

/// A family of well-formed, pairwise disjoint boxes.
pub open spec fn family_wf(cs: Seq<Cuboid>) -> bool {
    &&& forall|k: int| 0 <= k < cs.len() ==> (#[trigger] cs[k]).wf()
    &&& forall|k1: int, k2: int, p: (int, int, int)|
        #![trigger cs[k1].spec_contains(p), cs[k2].spec_contains(p)]
        0 <= k1 < k2 < cs.len() ==> !(cs[k1].spec_contains(p) && cs[k2].spec_contains(p))
}

/// Total volume of the first `k` boxes.
pub open spec fn vol_sum(cs: Seq<Cuboid>, k: int) -> int
    decreases k,
{
    if k <= 0 {
        0
    } else {
        vol_sum(cs, k - 1) + cs[k - 1].spec_volume()
    }
}

/// The family stands for exactly the points lit after the steps.
pub open spec fn represents(cs: Seq<Cuboid>, steps: Seq<(bool, Cuboid)>) -> bool {
    family_wf(cs) && (forall|p: (int, int, int)|
        #![trigger covers(cs, p)]
        covers(cs, p) == lit(steps, p))
}

/// Applies one reboot step: carves the new cuboid out of every box of the
/// family and, when the step turns on, adds the cuboid as one whole box.
fn apply_step(fam: Vec<Cuboid>, on: bool, cb: Cuboid) -> (r: Vec<Cuboid>)
    requires
        family_wf(fam@),
        cb.wf(),
    ensures
        family_wf(r@),
        forall|p: (int, int, int)|
            #![trigger covers(r@, p)]
            covers(r@, p) == ((covers(fam@, p) && !cb.spec_contains(p)) || (on
                && cb.spec_contains(p))),
{
    let mut new: Vec<Cuboid> = Vec::new();
    let mut i: usize = 0;
    while i < fam.len()
        invariant
            0 <= i <= fam@.len(),
            family_wf(fam@),
            cb.wf(),
            family_wf(new@),
            forall|p: (int, int, int)|
                #![trigger covers(new@, p)]
                covers(new@, p) == (covers_upto(fam@, i as int, p) && !cb.spec_contains(p)),
            forall|k: int, p: (int, int, int)|
                #![trigger new@[k].spec_contains(p)]
                0 <= k < new@.len() && new@[k].spec_contains(p) ==> covers_upto(fam@, i as int, p)
                    && !cb.spec_contains(p),
        decreases fam@.len() - i,
    {
        let mut pieces = fam[i].subtract(&cb);
        let ghost pcs = pieces@;
        let ghost base = new@;
        let mut m: usize = 0;
        while m < pieces.len()
            invariant
                0 <= m <= pcs.len(),
                0 <= i < fam@.len(),
                pieces@ == pcs,
                family_wf(fam@),
                cb.wf(),
                family_wf(new@),
                new@.len() == base.len() + m,
                forall|k: int| 0 <= k < base.len() ==> (#[trigger] new@[k]) == base[k],
                forall|k: int|
                    base.len() <= k < new@.len() ==> (#[trigger] new@[k]) == pcs[k - base.len()],
                forall|k: int| 0 <= k < pcs.len() ==> (#[trigger] pcs[k]).wf(),
                forall|p: (int, int, int)|
                    #![trigger fam@[i as int].spec_contains(p)]
                    (fam@[i as int].spec_contains(p) && !cb.spec_contains(p)) == (exists|k: int|
                        0 <= k < pcs.len() && (#[trigger] pcs[k]).spec_contains(p)),
                forall|k1: int, k2: int, p: (int, int, int)|
                    #![trigger pcs[k1].spec_contains(p), pcs[k2].spec_contains(p)]
                    0 <= k1 < k2 < pcs.len() ==> !(pcs[k1].spec_contains(p)
                        && pcs[k2].spec_contains(p)),
                forall|p: (int, int, int)|
                    #![trigger covers(base, p)]
                    covers(base, p) == (covers_upto(fam@, i as int, p) && !cb.spec_contains(p)),
                forall|k: int, p: (int, int, int)|
                    #![trigger base[k].spec_contains(p)]
                    0 <= k < base.len() && base[k].spec_contains(p) ==> covers_upto(
                        fam@,
                        i as int,
                        p,
                    ) && !cb.spec_contains(p),
            decreases pcs.len() - m,
        {
            let c = pieces[m];
            new.push(c);
            proof {
                assert forall|k1: int, k2: int, p: (int, int, int)|
                    #![trigger new@[k1].spec_contains(p), new@[k2].spec_contains(p)]
                    0 <= k1 < k2 < new@.len() implies !(new@[k1].spec_contains(p)
                    && new@[k2].spec_contains(p)) by {
                    if new@[k1].spec_contains(p) && new@[k2].spec_contains(p) {
                        if k2 == new@.len() - 1 {
                            assert(pcs[m as int].spec_contains(p));
                            assert(fam@[i as int].spec_contains(p));
                            if k1 < base.len() {
                                assert(base[k1].spec_contains(p));
                                assert(covers_upto(fam@, i as int, p));
                                let j = choose|j: int|
                                    0 <= j < i && j < fam@.len() && (#[trigger] fam@[j]).spec_contains(p);
                                assert(fam@[j].spec_contains(p) && fam@[i as int].spec_contains(p));
                            } else {
                                assert(pcs[k1 - base.len()].spec_contains(p));
                            }
                        } else {
                            assert(new@[k1] == if k1 < base.len() {
                                base[k1]
                            } else {
                                pcs[k1 - base.len()]
                            });
                        }
                    }
                }
            }
            m = m + 1;
        }
        proof {
            let ghost mid = new@;
            assert forall|p: (int, int, int)|
                #![trigger covers(mid, p)]
                covers(mid, p) == (covers_upto(fam@, i + 1, p) && !cb.spec_contains(p)) by {
                if covers(mid, p) {
                    let k = choose|k: int| 0 <= k < mid.len() && (#[trigger] mid[k]).spec_contains(p);
                    if k < base.len() {
                        assert(covers(base, p));
                        let j = choose|j: int|
                            0 <= j < i && j < fam@.len() && (#[trigger] fam@[j]).spec_contains(p);
                        assert(0 <= j < i + 1 && fam@[j].spec_contains(p));
                        assert(covers_upto(fam@, i + 1, p));
                    } else {
                        assert(pcs[k - base.len()].spec_contains(p));
                        assert(fam@[i as int].spec_contains(p) && !cb.spec_contains(p));
                        assert(covers_upto(fam@, i + 1, p));
                    }
                }
                if covers_upto(fam@, i + 1, p) && !cb.spec_contains(p) {
                    let j = choose|j: int|
                        0 <= j < i + 1 && j < fam@.len() && (#[trigger] fam@[j]).spec_contains(p);
                    if j < i {
                        assert(covers_upto(fam@, i as int, p));
                        assert(covers(base, p));
                        let k = choose|k: int|
                            0 <= k < base.len() && (#[trigger] base[k]).spec_contains(p);
                        assert(mid[k].spec_contains(p));
                        assert(covers(mid, p));
                    } else {
                        assert(fam@[i as int].spec_contains(p));
                        let k = choose|k: int|
                            0 <= k < pcs.len() && (#[trigger] pcs[k]).spec_contains(p);
                        assert(mid[base.len() + k].spec_contains(p));
                        assert(covers(mid, p));
                    }
                }
            }
            assert forall|k: int, p: (int, int, int)|
                #![trigger mid[k].spec_contains(p)]
                0 <= k < mid.len() && mid[k].spec_contains(p) implies covers_upto(fam@, i + 1, p)
                && !cb.spec_contains(p) by {
                if k < base.len() {
                    assert(base[k].spec_contains(p));
                    let j = choose|j: int|
                        0 <= j < i && j < fam@.len() && (#[trigger] fam@[j]).spec_contains(p);
                    assert(covers_upto(fam@, i + 1, p));
                } else {
                    assert(pcs[k - base.len()].spec_contains(p));
                    assert(fam@[i as int].spec_contains(p));
                    assert(covers_upto(fam@, i + 1, p));
                }
            }
        }
        i = i + 1;
    }
    if on {
        let ghost pre = new@;
        new.push(cb);
        proof {
            assert forall|k1: int, k2: int, p: (int, int, int)|
                #![trigger new@[k1].spec_contains(p), new@[k2].spec_contains(p)]
                0 <= k1 < k2 < new@.len() implies !(new@[k1].spec_contains(p)
                && new@[k2].spec_contains(p)) by {
                if new@[k1].spec_contains(p) && new@[k2].spec_contains(p) {
                    if k2 == new@.len() - 1 {
                        assert(pre[k1].spec_contains(p));
                        assert(!cb.spec_contains(p));
                    } else {
                        assert(new@[k1] == pre[k1] && new@[k2] == pre[k2]);
                    }
                }
            }
            assert forall|p: (int, int, int)|
                #![trigger covers(new@, p)]
                covers(new@, p) == ((covers(fam@, p) && !cb.spec_contains(p)) || cb.spec_contains(
                    p,
                )) by {
                assert(covers_upto(fam@, fam@.len() as int, p) == covers(fam@, p));
                if covers(new@, p) {
                    let k = choose|k: int|
                        0 <= k < new@.len() && (#[trigger] new@[k]).spec_contains(p);
                    if k < pre.len() {
                        assert(pre[k].spec_contains(p));
                        assert(covers(pre, p));
                    } else {
                        assert(cb.spec_contains(p));
                    }
                }
                if covers(fam@, p) && !cb.spec_contains(p) {
                    assert(covers(pre, p));
                    let k = choose|k: int|
                        0 <= k < pre.len() && (#[trigger] pre[k]).spec_contains(p);
                    assert(new@[k].spec_contains(p));
                }
                if cb.spec_contains(p) {
                    assert(new@[new@.len() - 1].spec_contains(p));
                }
            }
        }
        new
    } else {
        proof {
            assert forall|p: (int, int, int)|
                #![trigger covers(new@, p)]
                covers(new@, p) == ((covers(fam@, p) && !cb.spec_contains(p)) || (on
                    && cb.spec_contains(p))) by {
                assert(covers_upto(fam@, fam@.len() as int, p) == covers(fam@, p));
            }
        }
        new
    }
}

/// A well-formed box holds at least one point.
proof fn lemma_vol_pos(c: Cuboid)
    requires
        c.wf(),
    ensures
        c.spec_volume() >= 1,
{
    assert(1 <= c.x.spec_length() <= 2_000_001);
    assert(1 <= c.y.spec_length() <= 2_000_001);
    assert(1 <= c.z.spec_length() <= 2_000_001);
    assert(c.x.spec_length() * c.y.spec_length() >= 1) by (nonlinear_arith)
        requires
            c.x.spec_length() >= 1,
            c.y.spec_length() >= 1,
    ;
    assert((c.x.spec_length() * c.y.spec_length()) * c.z.spec_length() >= 1) by (nonlinear_arith)
        requires
            c.x.spec_length() * c.y.spec_length() >= 1,
            c.z.spec_length() >= 1,
    ;
}

proof fn lemma_vol_sum_nonneg(cs: Seq<Cuboid>, k: int)
    requires
        k <= cs.len(),
        forall|j: int| 0 <= j < cs.len() ==> (#[trigger] cs[j]).wf(),
    ensures
        vol_sum(cs, k) >= 0,
    decreases k,
{
    if k > 0 {
        lemma_vol_sum_nonneg(cs, k - 1);
        lemma_vol_pos(cs[k - 1]);
    }
}

/// Volumes only accumulate.
proof fn lemma_vol_sum_mono(cs: Seq<Cuboid>, k1: int, k2: int)
    requires
        0 <= k1 <= k2 <= cs.len(),
        forall|k: int| 0 <= k < cs.len() ==> (#[trigger] cs[k]).wf(),
    ensures
        vol_sum(cs, k1) <= vol_sum(cs, k2),
        vol_sum(cs, k1) >= 0,
    decreases k2 - k1,
{
    lemma_vol_sum_nonneg(cs, k1);
    if k1 < k2 {
        lemma_vol_sum_mono(cs, k1, k2 - 1);
        lemma_vol_pos(cs[k2 - 1]);
    }
}

/// Runs every reboot step and totals the volume of the lit region, kept as a
/// family of disjoint boxes. `None` exactly when the total does not fit.
pub fn part_2(steps: &Vec<(bool, Cuboid)>) -> (r: Option<i64>)
    requires
        forall|k: int| 0 <= k < steps@.len() ==> (#[trigger] steps@[k]).1.wf(),
    ensures
        match r {
            Some(s) => exists|cs: Seq<Cuboid>|
                #![trigger represents(cs, steps@)]
                represents(cs, steps@) && s as int == vol_sum(cs, cs.len() as int),
            None => exists|cs: Seq<Cuboid>|
                #![trigger represents(cs, steps@)]
                represents(cs, steps@) && vol_sum(cs, cs.len() as int) > i64::MAX,
        },
{
    let mut fam: Vec<Cuboid> = Vec::new();
    let mut k: usize = 0;
    proof {
        assert forall|p: (int, int, int)| #[trigger]
            covers(fam@, p) == lit(steps@.take(0), p) by {}
    }
    while k < steps.len()
        invariant
            0 <= k <= steps@.len(),
            forall|j: int| 0 <= j < steps@.len() ==> (#[trigger] steps@[j]).1.wf(),
            represents(fam@, steps@.take(k as int)),
        decreases steps@.len() - k,
    {
        let (on, cb) = steps[k];
        let ghost prev = fam@;
        fam = apply_step(fam, on, cb);
        proof {
            assert(steps@.take(k + 1).drop_last() =~= steps@.take(k as int));
            assert(steps@.take(k + 1).last() == steps@[k as int]);
            assert forall|p: (int, int, int)|
                #![trigger covers(fam@, p)]
                covers(fam@, p) == lit(steps@.take(k + 1), p) by {
                assert(covers(fam@, p) == ((covers(prev, p) && !cb.spec_contains(p)) || (on
                    && cb.spec_contains(p))));
            }
        }
        k = k + 1;
    }
    proof {
        assert(steps@.take(steps@.len() as int) =~= steps@);
    }
    let mut total: i64 = 0;
    let mut m: usize = 0;
    let ghost cs = fam@;
    while m < fam.len()
        invariant
            0 <= m <= fam@.len(),
            cs == fam@,
            represents(cs, steps@),
            total as int == vol_sum(cs, m as int),
        decreases fam@.len() - m,
    {
        proof {
            assert(fam@[m as int].wf());
        }
        let v = fam[m].volume();
        match total.checked_add(v) {
            Some(t) => {
                total = t;
            },
            None => {
                proof {
                    lemma_vol_sum_mono(cs, m as int + 1, cs.len() as int);
                }
                return None;
            },
        }
        m = m + 1;
    }
    Some(total)
}

/// Disjoint non-empty pieces are pairwise different ranges.
proof fn lemma_axis_pieces_distinct(sr: Range, other: Range, pieces: Seq<Range>)
    requires
        axis_split_ok(sr, other, pieces),
    ensures
        forall|k1: int, k2: int|
            0 <= k1 < k2 < pieces.len() ==> (#[trigger] pieces[k1]) != (#[trigger] pieces[k2]),
{
    assert forall|k1: int, k2: int|
        0 <= k1 < k2 < pieces.len() implies (#[trigger] pieces[k1]) != (#[trigger] pieces[k2]) by {
        if pieces[k1] == pieces[k2] {
            assert(pieces[k1].wf());
            assert(pieces[k1].spec_contains(pieces[k1].0 as int));
            assert(pieces[k2].spec_contains(pieces[k1].0 as int));
        }
    }
}

/// The per-axis split facts `Range::split` establishes.
pub open spec fn axis_split_ok(sr: Range, other: Range, pieces: Seq<Range>) -> bool {
    &&& forall|k: int| 0 <= k < pieces.len() ==> (#[trigger] pieces[k]).wf()
    &&& forall|i: int|
        #![trigger sr.spec_contains(i)]
        sr.spec_contains(i) <==> exists|k: int|
            0 <= k < pieces.len() && (#[trigger] pieces[k]).spec_contains(i)
    &&& forall|k1: int, k2: int, i: int|
        #![trigger pieces[k1].spec_contains(i), pieces[k2].spec_contains(i)]
        0 <= k1 < k2 < pieces.len() ==> !(pieces[k1].spec_contains(i) && pieces[k2].spec_contains(
            i,
        ))
    &&& forall|k: int, i: int|
        0 <= k < pieces.len() && (#[trigger] pieces[k].spec_contains(i)) ==> sr.spec_contains(i)
    &&& forall|k: int|
        0 <= k < pieces.len() ==> ((forall|i: int|
            (#[trigger] pieces[k]).spec_contains(i) ==> other.spec_contains(i)) || (forall|i: int|
            (#[trigger] pieces[k]).spec_contains(i) ==> !other.spec_contains(i)))
}

} // verus!
