//! Weighted-grid shortest path.
//!
//! A rectangular grid assigns every cell a positive entry weight (1 through
//! 9). The cost of a path is the sum of the weights of the cells it enters;
//! the starting cell's own weight is never charged. `a_star` returns the
//! least possible cost of walking from one cell to another through
//! 4-directionally adjacent cells, or `None` when no such walk exists.

use vstd::prelude::*;

verus! {

/// A rectangular grid of entry weights, row-major, each weight in 1..=9.
pub struct Grid {
    pub rows: Vec<Vec<u8>>,
}

/// A position is an (x, y) coordinate pair; x indexes into a row.
pub type Pos = (usize, usize);

impl Grid {
    /// Well-formed: non-empty, rectangular, all weights between 1 and 9.
    pub open spec fn wf(self) -> bool {
        &&& self.rows@.len() >= 1
        &&& self.rows@[0]@.len() >= 1
        &&& forall|y: int|
            0 <= y < self.rows@.len() ==> (#[trigger] self.rows@[y])@.len() == self.rows@[0]@.len()
        &&& forall|y: int, x: int|
            0 <= y < self.rows@.len() && 0 <= x < self.rows@[0]@.len() ==> 1 <= (
            #[trigger] self.rows@[y]@[x]) <= 9
    }

    pub open spec fn spec_width(self) -> int {
        self.rows@[0]@.len() as int
    }

    pub open spec fn spec_height(self) -> int {
        self.rows@.len() as int
    }

    /// The weight charged for entering position `p`.
    pub open spec fn weight_at(self, p: (int, int)) -> int {
        self.rows@[p.1]@[p.0] as int
    }

    /// `p` lies inside the grid.
    pub open spec fn in_bounds(self, p: (int, int)) -> bool {
        0 <= p.0 < self.spec_width() && 0 <= p.1 < self.spec_height()
    }

    /// Builds a grid from rows of weights; `None` unless the rows form a
    /// non-empty rectangle of weights in 1..=9.
    pub fn new(rows: Vec<Vec<u8>>) -> (r: Option<Grid>)
        ensures
            match r {
                Some(g) => g.wf() && g.rows@ == rows@,
                None => !(Grid { rows }).wf(),
            },
    {
        if rows.len() == 0 {
            return None;
        }
        let width = rows[0].len();
        if width == 0 {
            return None;
        }
        let mut y: usize = 0;
        while y < rows.len()
            invariant
                0 <= y <= rows@.len(),
                rows@.len() >= 1,
                width == rows@[0]@.len(),
                forall|j: int| 0 <= j < y ==> (#[trigger] rows@[j])@.len() == width,
                forall|j: int, x: int|
                    0 <= j < y && 0 <= x < width ==> 1 <= (#[trigger] rows@[j]@[x]) <= 9,
            decreases rows@.len() - y,
        {
            if rows[y].len() != width {
                return None;
            }
            let mut x: usize = 0;
            while x < width
                invariant
                    0 <= x <= width,
                    0 <= y < rows@.len(),
                    width == rows@[y as int]@.len(),
                    forall|i: int| 0 <= i < x ==> 1 <= (#[trigger] rows@[y as int]@[i]) <= 9,
                decreases width - x,
            {
                let w = rows[y][x];
                if w < 1 || w > 9 {
                    return None;
                }
                x = x + 1;
            }
            y = y + 1;
        }
        Some(Grid { rows })
    }

    pub fn width(&self) -> (r: usize)
        requires
            self.wf(),
        ensures
            r == self.spec_width(),
    {
        self.rows[0].len()
    }

    pub fn height(&self) -> (r: usize)
        ensures
            r == self.spec_height(),
    {
        self.rows.len()
    }

    /// The entry weight of the cell at `p`.
    pub fn weight(&self, p: Pos) -> (r: u8)
        requires
            self.wf(),
            self.in_bounds((p.0 as int, p.1 as int)),
        ensures
            r == self.weight_at((p.0 as int, p.1 as int)),
            1 <= r <= 9,
    {
        self.rows[p.1][p.0]
    }
}

/// Two positions are 4-directionally adjacent.
pub open spec fn adjacent(a: (int, int), b: (int, int)) -> bool {
    (a.0 == b.0 && (a.1 == b.1 + 1 || a.1 + 1 == b.1)) || (a.1 == b.1 && (a.0 == b.0 + 1 || a.0
        + 1 == b.0))
}

/// `p` is a walk through the grid: non-empty, inside the grid, each step
/// moving to a 4-directionally adjacent cell.
pub open spec fn is_path(g: Grid, p: Seq<(int, int)>) -> bool {
    &&& p.len() >= 1
    &&& forall|i: int| 0 <= i < p.len() ==> g.in_bounds(#[trigger] p[i])
    &&& forall|i: int| 0 <= i < p.len() - 1 ==> adjacent(#[trigger] p[i], p[i + 1])
}

/// `p` is a walk from `s` to `t`.
pub open spec fn path_from_to(g: Grid, p: Seq<(int, int)>, s: (int, int), t: (int, int)) -> bool {
    is_path(g, p) && p[0] == s && p.last() == t
}

/// Cost of a walk: the sum of the weights of every cell entered, which
/// excludes the starting cell.
pub open spec fn path_cost(g: Grid, p: Seq<(int, int)>) -> int
    decreases p.len(),
{
    if p.len() <= 1 {
        0
    } else {
        path_cost(g, p.drop_last()) + g.weight_at(p.last())
    }
}

/// `c` is the least cost of any walk from `s` to `t`.
pub open spec fn is_optimal_cost(g: Grid, s: (int, int), t: (int, int), c: int) -> bool {
    &&& exists|p: Seq<(int, int)>| path_from_to(g, p, s, t) && path_cost(g, p) == c
    &&& forall|p: Seq<(int, int)>|
        path_from_to(g, p, s, t) ==> #[trigger] path_cost(g, p) >= c
}

/// Every prefix of a walk is a walk, and costs no more.
proof fn lemma_path_prefix(g: Grid, p: Seq<(int, int)>, j: int)
    requires
        g.wf(),
        is_path(g, p),
        1 <= j <= p.len(),
    ensures
        is_path(g, p.take(j)),
        path_cost(g, p.take(j)) <= path_cost(g, p),
        p.take(j)[0] == p[0],
    decreases p.len() - j,
{
    if j == p.len() {
        assert(p.take(j) =~= p);
    } else {
        lemma_path_prefix(g, p, j + 1);
        assert(p.take(j + 1).drop_last() =~= p.take(j));
        assert(path_cost(g, p.take(j + 1)) == path_cost(g, p.take(j)) + g.weight_at(p.take(j + 1).last()));
        assert(p.take(j + 1).last() == p[j]);
        assert(g.in_bounds(p[j]));
        assert(g.weight_at(p[j]) >= 1);
    }
}

/// Appending one adjacent in-bounds cell extends a walk and adds that cell's
/// weight to the cost.
proof fn lemma_path_extend(g: Grid, p: Seq<(int, int)>, q: (int, int))
    requires
        g.wf(),
        is_path(g, p),
        g.in_bounds(q),
        adjacent(p.last(), q),
    ensures
        is_path(g, p.push(q)),
        path_cost(g, p.push(q)) == path_cost(g, p) + g.weight_at(q),
        p.push(q)[0] == p[0],
        p.push(q).last() == q,
{
    let e = p.push(q);
    assert(e.drop_last() =~= p);
    assert forall|i: int| 0 <= i < e.len() - 1 implies adjacent(#[trigger] e[i], e[i + 1]) by {
        if i < p.len() - 1 {
            assert(adjacent(p[i], p[i + 1]));
        } else {
            assert(e[i] == p.last());
        }
    }
}

/// Sentinel standing for "no cost known yet"; larger than any real cost the
/// search can produce.
pub const INF: u64 = u64::MAX;

/// Flat index of position `p` in a row-major array of width `w`.
pub open spec fn idx(w: int, p: (int, int)) -> int {
    p.1 * w + p.0
}

/// The recorded cost for `p` in the flat cost table `dist`.
pub open spec fn dat(dist: Seq<u64>, w: int, p: (int, int)) -> int {
    dist[idx(w, p)] as int
}

/// Whether `p` is marked in the flat table `vst`.
pub open spec fn vis(vst: Seq<bool>, w: int, p: (int, int)) -> bool {
    vst[idx(w, p)]
}

proof fn lemma_idx_bounds(w: int, h: int, p: (int, int))
    by (nonlinear_arith)
    requires
        0 <= p.0 < w,
        0 <= p.1 < h,
    ensures
        0 <= idx(w, p) < w * h,
{
}

proof fn lemma_idx_inj(w: int, h: int, p: (int, int), q: (int, int))
    by (nonlinear_arith)
    requires
        0 <= p.0 < w,
        0 <= p.1 < h,
        0 <= q.0 < w,
        0 <= q.1 < h,
        idx(w, p) == idx(w, q),
    ensures
        p == q,
{
}

/// Number of `true` entries in a mark table.
pub open spec fn count_true(s: Seq<bool>) -> nat
    decreases s.len(),
{
    if s.len() == 0 {
        0
    } else if s.last() {
        count_true(s.drop_last()) + 1
    } else {
        count_true(s.drop_last())
    }
}

proof fn lemma_count_true_le(s: Seq<bool>)
    ensures
        count_true(s) <= s.len(),
    decreases s.len(),
{
    if s.len() > 0 {
        lemma_count_true_le(s.drop_last());
    }
}

proof fn lemma_count_true_zero(s: Seq<bool>)
    requires
        forall|i: int| 0 <= i < s.len() ==> !s[i],
    ensures
        count_true(s) == 0,
    decreases s.len(),
{
    if s.len() > 0 {
        assert(forall|i: int| 0 <= i < s.drop_last().len() ==> !s.drop_last()[i]);
        lemma_count_true_zero(s.drop_last());
    }
}

proof fn lemma_count_true_update(s: Seq<bool>, i: int)
    requires
        0 <= i < s.len(),
        !s[i],
    ensures
        count_true(s.update(i, true)) == count_true(s) + 1,
    decreases s.len(),
{
    let t = s.update(i, true);
    if i == s.len() - 1 {
        assert(t.drop_last() =~= s.drop_last());
        assert(t.last());
    } else {
        assert(t.drop_last() =~= s.drop_last().update(i, true));
        lemma_count_true_update(s.drop_last(), i);
        assert(t.last() == s.last());
    }
}

/// Every recorded finite cost is realised by an actual walk from `s`.
pub open spec fn sound_dist(g: Grid, s: (int, int), dist: Seq<u64>) -> bool {
    forall|v: (int, int)|
        g.in_bounds(v) && #[trigger] dat(dist, g.spec_width(), v) < INF ==> exists|p: Seq<(int, int)>|
            path_from_to(g, p, s, v) && path_cost(g, p) == dat(dist, g.spec_width(), v)
}

/// Marked cells carry their final, optimal cost.
pub open spec fn settled_optimal(g: Grid, s: (int, int), dist: Seq<u64>, vst: Seq<bool>) -> bool {
    forall|v: (int, int)|
        g.in_bounds(v) && #[trigger] vis(vst, g.spec_width(), v) ==> dat(dist, g.spec_width(), v)
            < INF && (forall|p: Seq<(int, int)>|
            path_from_to(g, p, s, v) ==> #[trigger] path_cost(g, p) >= dat(
                dist,
                g.spec_width(),
                v,
            ))
}

/// Every edge leaving a marked cell has been relaxed.
pub open spec fn edges_relaxed(g: Grid, dist: Seq<u64>, vst: Seq<bool>) -> bool {
    forall|u: (int, int), v: (int, int)|
        #![trigger vis(vst, g.spec_width(), u), dat(dist, g.spec_width(), v)]
        g.in_bounds(u) && g.in_bounds(v) && adjacent(u, v) && vis(vst, g.spec_width(), u)
            ==> dat(dist, g.spec_width(), v) <= dat(dist, g.spec_width(), u) + g.weight_at(v)
}

/// Finite recorded costs stay below 9 per marked cell, which keeps additions
/// far away from the sentinel.
pub open spec fn dist_bounded(g: Grid, dist: Seq<u64>, vst: Seq<bool>) -> bool {
    forall|v: (int, int)|
        g.in_bounds(v) && #[trigger] dat(dist, g.spec_width(), v) < INF ==> dat(
            dist,
            g.spec_width(),
            v,
        ) <= 9 * count_true(vst)
}

proof fn lemma_path_cost_nonneg(g: Grid, p: Seq<(int, int)>)
    requires
        g.wf(),
        is_path(g, p),
    ensures
        path_cost(g, p) >= 0,
    decreases p.len(),
{
    if p.len() > 1 {
        lemma_path_prefix(g, p, p.len() - 1);
        assert(p.take(p.len() - 1) =~= p.drop_last());
        lemma_path_cost_nonneg(g, p.drop_last());
        assert(g.in_bounds(p.last()));
    }
}

/// A walk ending at an unmarked cell costs at least the smallest recorded
/// cost among unmarked cells.
proof fn lemma_crossing(
    g: Grid,
    s: (int, int),
    dist: Seq<u64>,
    vst: Seq<bool>,
    p: Seq<(int, int)>,
    t: (int, int),
    bd: int,
)
    requires
        g.wf(),
        g.in_bounds(s),
        dat(dist, g.spec_width(), s) == 0,
        settled_optimal(g, s, dist, vst),
        edges_relaxed(g, dist, vst),
        path_from_to(g, p, s, t),
        !vis(vst, g.spec_width(), t),
        forall|v: (int, int)|
            g.in_bounds(v) && !vis(vst, g.spec_width(), v) ==> #[trigger] dat(
                dist,
                g.spec_width(),
                v,
            ) >= bd,
    ensures
        path_cost(g, p) >= bd,
    decreases p.len(),
{
    if p.len() == 1 {
        assert(t == s);
        assert(dat(dist, g.spec_width(), t) >= bd);
    } else {
        let q = p.drop_last();
        let z = p[p.len() - 2];
        lemma_path_prefix(g, p, p.len() - 1);
        assert(p.take(p.len() - 1) =~= q);
        assert(path_from_to(g, q, s, z));
        assert(g.in_bounds(t));
        if vis(vst, g.spec_width(), z) {
            assert(path_cost(g, q) >= dat(dist, g.spec_width(), z));
            assert(adjacent(z, t));
            assert(dat(dist, g.spec_width(), t) <= dat(dist, g.spec_width(), z) + g.weight_at(t));
            assert(dat(dist, g.spec_width(), t) >= bd);
        } else {
            lemma_crossing(g, s, dist, vst, q, z, bd);
            assert(g.weight_at(t) >= 1);
        }
    }
}

/// From a marked start, any walk to an unmarked cell passes an unmarked cell
/// whose recorded cost is finite.
proof fn lemma_reach_frontier(
    g: Grid,
    s: (int, int),
    dist: Seq<u64>,
    vst: Seq<bool>,
    p: Seq<(int, int)>,
    t: (int, int),
)
    requires
        g.wf(),
        g.in_bounds(s),
        vis(vst, g.spec_width(), s),
        edges_relaxed(g, dist, vst),
        forall|v: (int, int)|
            g.in_bounds(v) && #[trigger] vis(vst, g.spec_width(), v) ==> dat(dist, g.spec_width(), v)
                + 9 < INF,
        path_from_to(g, p, s, t),
        !vis(vst, g.spec_width(), t),
    ensures
        exists|y: (int, int)|
            g.in_bounds(y) && !vis(vst, g.spec_width(), y) && #[trigger] dat(dist, g.spec_width(), y)
                < INF,
    decreases p.len(),
{
    assert(p.len() >= 2);
    let q = p.drop_last();
    let z = p[p.len() - 2];
    lemma_path_prefix(g, p, p.len() - 1);
    assert(p.take(p.len() - 1) =~= q);
    assert(path_from_to(g, q, s, z));
    assert(g.in_bounds(t));
    if vis(vst, g.spec_width(), z) {
        assert(adjacent(z, t));
        assert(dat(dist, g.spec_width(), t) <= dat(dist, g.spec_width(), z) + g.weight_at(t));
        assert(g.weight_at(t) <= 9);
        assert(dat(dist, g.spec_width(), t) < INF);
    } else {
        lemma_reach_frontier(g, s, dist, vst, q, z);
    }
}

/// A vector holding `n` copies of `val`.
fn filled<T: Copy>(n: usize, val: T) -> (r: Vec<T>)
    ensures
        r@.len() == n,
        forall|i: int| 0 <= i < n ==> r@[i] == val,
{
    let mut r: Vec<T> = Vec::new();
    let mut i: usize = 0;
    while i < n
        invariant
            0 <= i <= n,
            r@.len() == i,
            forall|j: int| 0 <= j < i ==> r@[j] == val,
        decreases n - i,
    {
        r.push(val);
        i = i + 1;
    }
    r
}

/// Flat index of the cell at `(x, y)`.
fn cell_index(w: usize, h: usize, x: usize, y: usize) -> (i: usize)
    requires
        x < w,
        y < h,
        w * h <= usize::MAX,
    ensures
        i == idx(w as int, (x as int, y as int)),
        i < w * h,
{
    proof {
        lemma_idx_bounds(w as int, h as int, (x as int, y as int));
    }
    y * w + x
}

/// Scans for the unmarked cell with the smallest recorded cost.
fn find_min(dist: &Vec<u64>, vst: &Vec<bool>, w: usize, h: usize) -> (r: Option<Pos>)
    requires
        w >= 1,
        h >= 1,
        w * h <= usize::MAX,
        dist@.len() == w * h,
        vst@.len() == w * h,
    ensures
        match r {
            Some(u) => {
                let up = (u.0 as int, u.1 as int);
                &&& 0 <= up.0 < w && 0 <= up.1 < h
                &&& !vis(vst@, w as int, up)
                &&& dat(dist@, w as int, up) < INF
                &&& forall|v: (int, int)|
                    0 <= v.0 < w && 0 <= v.1 < h && !vis(vst@, w as int, v) ==> #[trigger] dat(
                        dist@,
                        w as int,
                        v,
                    ) >= dat(dist@, w as int, up)
            },
            None => forall|v: (int, int)|
                0 <= v.0 < w && 0 <= v.1 < h && !vis(vst@, w as int, v) ==> #[trigger] dat(
                    dist@,
                    w as int,
                    v,
                ) == INF,
        },
{
    let mut best: Option<Pos> = None;
    let mut best_d: u64 = INF;
    let mut y: usize = 0;
    while y < h
        invariant
            0 <= y <= h,
            w >= 1,
            w * h <= usize::MAX,
            dist@.len() == w * h,
            vst@.len() == w * h,
            match best {
                Some(u) => {
                    let up = (u.0 as int, u.1 as int);
                    &&& 0 <= up.0 < w && 0 <= up.1 < h
                    &&& !vis(vst@, w as int, up)
                    &&& dat(dist@, w as int, up) == best_d
                    &&& best_d < INF
                },
                None => best_d == INF,
            },
            forall|v: (int, int)|
                0 <= v.0 < w && 0 <= v.1 < y && !vis(vst@, w as int, v) ==> #[trigger] dat(
                    dist@,
                    w as int,
                    v,
                ) >= best_d,
        decreases h - y,
    {
        let mut x: usize = 0;
        while x < w
            invariant
                0 <= x <= w,
                0 <= y < h,
                w >= 1,
                w * h <= usize::MAX,
                dist@.len() == w * h,
                vst@.len() == w * h,
                match best {
                    Some(u) => {
                        let up = (u.0 as int, u.1 as int);
                        &&& 0 <= up.0 < w && 0 <= up.1 < h
                        &&& !vis(vst@, w as int, up)
                        &&& dat(dist@, w as int, up) == best_d
                        &&& best_d < INF
                    },
                    None => best_d == INF,
                },
                forall|v: (int, int)|
                    0 <= v.0 < w && 0 <= v.1 < y && !vis(vst@, w as int, v) ==> #[trigger] dat(
                        dist@,
                        w as int,
                        v,
                    ) >= best_d,
                forall|v: (int, int)|
                    0 <= v.0 < x && v.1 == y && !vis(vst@, w as int, v) ==> #[trigger] dat(
                        dist@,
                        w as int,
                        v,
                    ) >= best_d,
            decreases w - x,
        {
            let i = cell_index(w, h, x, y);
            if !vst[i] && dist[i] < best_d {
                best = Some((x, y));
                best_d = dist[i];
            }
            x = x + 1;
        }
        y = y + 1;
    }
    best
}

/// Lowers the recorded cost of `v` to the cost of stepping there from `u`,
/// when that is an improvement and `v` is not yet settled.
fn relax(g: &Grid, dist: &mut Vec<u64>, vst: &Vec<bool>, s: Pos, u: Pos, v: Pos)
    requires
        g.wf(),
        g.spec_width() * g.spec_height() <= usize::MAX,
        g.in_bounds((s.0 as int, s.1 as int)),
        g.in_bounds((u.0 as int, u.1 as int)),
        g.in_bounds((v.0 as int, v.1 as int)),
        adjacent((u.0 as int, u.1 as int), (v.0 as int, v.1 as int)),
        old(dist)@.len() == g.spec_width() * g.spec_height(),
        vst@.len() == g.spec_width() * g.spec_height(),
        dat(old(dist)@, g.spec_width(), (u.0 as int, u.1 as int)) < INF,
        dat(old(dist)@, g.spec_width(), (u.0 as int, u.1 as int)) + 9 < INF,
        sound_dist(*g, (s.0 as int, s.1 as int), old(dist)@),
        settled_optimal(*g, (s.0 as int, s.1 as int), old(dist)@, vst@),
    ensures
        final(dist)@.len() == old(dist)@.len(),
        sound_dist(*g, (s.0 as int, s.1 as int), final(dist)@),
        settled_optimal(*g, (s.0 as int, s.1 as int), final(dist)@, vst@),
        forall|c: (int, int)|
            g.in_bounds(c) ==> #[trigger] dat(final(dist)@, g.spec_width(), c) <= dat(
                old(dist)@,
                g.spec_width(),
                c,
            ),
        forall|c: (int, int)|
            g.in_bounds(c) && c != (v.0 as int, v.1 as int) ==> #[trigger] dat(
                final(dist)@,
                g.spec_width(),
                c,
            ) == dat(old(dist)@, g.spec_width(), c),
        vis(vst@, g.spec_width(), (v.0 as int, v.1 as int)) ==> dat(
            final(dist)@,
            g.spec_width(),
            (v.0 as int, v.1 as int),
        ) == dat(old(dist)@, g.spec_width(), (v.0 as int, v.1 as int)),
        dat(final(dist)@, g.spec_width(), (v.0 as int, v.1 as int)) <= dat(
            old(dist)@,
            g.spec_width(),
            (u.0 as int, u.1 as int),
        ) + g.weight_at((v.0 as int, v.1 as int)),
        dat(final(dist)@, g.spec_width(), (v.0 as int, v.1 as int)) == dat(
            old(dist)@,
            g.spec_width(),
            (v.0 as int, v.1 as int),
        ) || dat(final(dist)@, g.spec_width(), (v.0 as int, v.1 as int)) == dat(
            old(dist)@,
            g.spec_width(),
            (u.0 as int, u.1 as int),
        ) + g.weight_at((v.0 as int, v.1 as int)),
{
    let ghost sp = (s.0 as int, s.1 as int);
    let ghost up = (u.0 as int, u.1 as int);
    let ghost vp = (v.0 as int, v.1 as int);
    let ghost wd = g.spec_width();
    let w = g.width();
    let h = g.height();
    let iu = cell_index(w, h, u.0, u.1);
    let iv = cell_index(w, h, v.0, v.1);
    let du = dist[iu];
    let wt = g.weight(v);
    let tent = du + (wt as u64);
    if !vst[iv] && tent < dist[iv] {
        let ghost pu = choose|p: Seq<(int, int)>|
            path_from_to(*g, p, sp, up) && path_cost(*g, p) == du as int;
        proof {
            lemma_path_extend(*g, pu, vp);
        }
        dist[iv] = tent;
        proof {
            let ghost pv = pu.push(vp);
            assert(path_from_to(*g, pv, sp, vp) && path_cost(*g, pv) == tent as int);
            assert forall|c: (int, int)|
                g.in_bounds(c) && c != vp implies #[trigger] dat(dist@, wd, c) == dat(
                old(dist)@,
                wd,
                c,
            ) by {
                lemma_idx_bounds(wd, g.spec_height(), c);
                lemma_idx_bounds(wd, g.spec_height(), vp);
                if idx(wd, c) == idx(wd, vp) {
                    lemma_idx_inj(wd, g.spec_height(), c, vp);
                }
            }
            assert(sound_dist(*g, sp, dist@));
        }
        proof {
            assert(!vis(vst@, wd, vp));
            assert forall|c: (int, int)| g.in_bounds(c) && vis(vst@, wd, c) implies #[trigger] dat(
                dist@,
                wd,
                c,
            ) == dat(old(dist)@, wd, c) by {
                assert(c != vp);
            }
            assert(settled_optimal(*g, sp, dist@, vst@));
        }
    } else {
        if vst[iv] {
            // A settled cell already beats any single further relaxation: the
            // walk that realises `du` extended by `v` witnesses the bound.
            proof {
                let pu = choose|p: Seq<(int, int)>|
                    path_from_to(*g, p, sp, up) && path_cost(*g, p) == du as int;
                lemma_path_extend(*g, pu, vp);
                let pv = pu.push(vp);
                assert(path_from_to(*g, pv, sp, vp));
                assert(vis(vst@, wd, vp));
                assert(dat(dist@, wd, vp) < INF);
                assert(path_cost(*g, pv) >= dat(dist@, wd, vp));
            }
        }
    }
}

/// Least-cost search from `start` to `goal`: a best-first expansion ordered
/// by already-paid cost, the classic optimal strategy for positive weights.
///
/// Returns the optimal cost, or `None` exactly when no walk connects the two
/// cells.
pub fn a_star(grid: &Grid, start: Pos, goal: Pos) -> (r: Option<u64>)
    requires
        grid.wf(),
        grid.in_bounds((start.0 as int, start.1 as int)),
        grid.in_bounds((goal.0 as int, goal.1 as int)),
        grid.spec_width() * grid.spec_height() <= usize::MAX,
        grid.spec_width() * grid.spec_height() * 9 + 9 < u64::MAX,
    ensures
        match r {
            Some(c) => is_optimal_cost(
                *grid,
                (start.0 as int, start.1 as int),
                (goal.0 as int, goal.1 as int),
                c as int,
            ),
            None => forall|p: Seq<(int, int)>|
                !(#[trigger] path_from_to(
                    *grid,
                    p,
                    (start.0 as int, start.1 as int),
                    (goal.0 as int, goal.1 as int),
                )),
        },
{
    let ghost sp = (start.0 as int, start.1 as int);
    let ghost tp = (goal.0 as int, goal.1 as int);
    let ghost wd = grid.spec_width();
    let ghost hd = grid.spec_height();
    let w = grid.width();
    let h = grid.height();
    let n = w * h;
    let mut dist: Vec<u64> = filled(n, INF);
    let mut vst: Vec<bool> = filled(n, false);
    let si = cell_index(w, h, start.0, start.1);
    dist[si] = 0;
    proof {
        lemma_count_true_zero(vst@);
        assert forall|v: (int, int)| grid.in_bounds(v) implies !vis(vst@, wd, v) by {
            lemma_idx_bounds(wd, hd, v);
        }
        assert(settled_optimal(*grid, sp, dist@, vst@));
        assert(edges_relaxed(*grid, dist@, vst@));
        assert forall|v: (int, int)|
            grid.in_bounds(v) && #[trigger] dat(dist@, wd, v) < INF implies dat(dist@, wd, v) <= 9
            * count_true(vst@) by {
            lemma_idx_bounds(wd, hd, v);
            if idx(wd, v) != si as int {
                assert(dat(dist@, wd, v) == INF);
            } else {
                lemma_idx_inj(wd, hd, v, sp);
            }
        }
        assert(dist_bounded(*grid, dist@, vst@));
        let p0 = seq![sp];
        assert(is_path(*grid, p0));
        assert(path_from_to(*grid, p0, sp, sp));
        assert(path_cost(*grid, p0) == 0);
        assert(dat(dist@, wd, sp) == 0);
        assert forall|v: (int, int)|
            grid.in_bounds(v) && #[trigger] dat(dist@, wd, v) < INF implies exists|
            p: Seq<(int, int)>,
        | path_from_to(*grid, p, sp, v) && path_cost(*grid, p) == dat(dist@, wd, v) by {
            lemma_idx_bounds(wd, hd, v);
            lemma_idx_bounds(wd, hd, sp);
            if idx(wd, v) != idx(wd, sp) {
                assert(dat(dist@, wd, v) == INF);
            } else {
                lemma_idx_inj(wd, hd, v, sp);
                assert(path_from_to(*grid, p0, sp, v) && path_cost(*grid, p0) == dat(dist@, wd, v));
            }
        }
    }
    if start.0 == goal.0 && start.1 == goal.1 {
        proof {
            let p0 = seq![sp];
            assert(path_from_to(*grid, p0, sp, tp) && path_cost(*grid, p0) == 0);
            assert forall|p: Seq<(int, int)>| path_from_to(*grid, p, sp, tp) implies #[trigger] path_cost(
                *grid,
                p,
            ) >= 0 by {
                lemma_path_cost_nonneg(*grid, p);
            }
        }
        return Some(0);
    }
    loop
        invariant
            grid.wf(),
            wd == grid.spec_width(),
            hd == grid.spec_height(),
            sp == (start.0 as int, start.1 as int),
            tp == (goal.0 as int, goal.1 as int),
            grid.in_bounds(sp),
            grid.in_bounds(tp),
            sp != tp,
            w == wd,
            h == hd,
            n == w * h,
            wd * hd <= usize::MAX,
            wd * hd * 9 + 9 < u64::MAX,
            dist@.len() == n,
            vst@.len() == n,
            dat(dist@, wd, sp) == 0,
            !vis(vst@, wd, tp),
            sound_dist(*grid, sp, dist@),
            settled_optimal(*grid, sp, dist@, vst@),
            edges_relaxed(*grid, dist@, vst@),
            dist_bounded(*grid, dist@, vst@),
        decreases n - count_true(vst@),
    {
        proof {
            lemma_count_true_le(vst@);
        }
        match find_min(&dist, &vst, w, h) {
            None => {
                proof {
                    // The start is settled (its recorded cost 0 is finite),
                    // and any walk to the unsettled goal would have put a
                    // finite cost on some unsettled cell.
                    lemma_idx_bounds(wd, hd, sp);
                    assert(vis(vst@, wd, sp));
                    assert forall|v: (int, int)|
                        grid.in_bounds(v) && #[trigger] vis(vst@, wd, v) implies dat(dist@, wd, v)
                        + 9 < INF by {
                        lemma_count_true_le(vst@);
                        assert(dat(dist@, wd, v) < INF);
                        assert(dat(dist@, wd, v) <= 9 * count_true(vst@));
                    }
                    assert forall|p: Seq<(int, int)>| !(#[trigger] path_from_to(
                        *grid,
                        p,
                        sp,
                        tp,
                    )) by {
                        if path_from_to(*grid, p, sp, tp) {
                            lemma_reach_frontier(*grid, sp, dist@, vst@, p, tp);
                        }
                    }
                }
                return None;
            },
            Some(u) => {
                let ghost up = (u.0 as int, u.1 as int);
                let iu = cell_index(w, h, u.0, u.1);
                let du = dist[iu];
                proof {
                    assert forall|p: Seq<(int, int)>|
                        path_from_to(*grid, p, sp, up) implies #[trigger] path_cost(*grid, p)
                        >= du as int by {
                        lemma_crossing(*grid, sp, dist@, vst@, p, up, du as int);
                    }
                }
                if u.0 == goal.0 && u.1 == goal.1 {
                    proof {
                        assert(up == tp);
                        assert(dat(dist@, wd, tp) == du as int && du < INF);
                        assert(exists|p: Seq<(int, int)>|
                            path_from_to(*grid, p, sp, tp) && path_cost(*grid, p) == du as int);
                    }
                    return Some(du);
                }
                let ghost prev_vst = vst@;
                let ghost prev_dist = dist@;
                let ghost cprev = count_true(prev_vst);
                vst[iu] = true;
                proof {
                    assert(vst@ =~= prev_vst.update(iu as int, true));
                    lemma_count_true_update(prev_vst, iu as int);
                    lemma_count_true_le(prev_vst);
                    assert(count_true(vst@) == cprev + 1);
                    // the goal stays unmarked
                    lemma_idx_bounds(wd, hd, tp);
                    if idx(wd, tp) == iu as int {
                        lemma_idx_inj(wd, hd, tp, up);
                    }
                    assert(!vis(vst@, wd, tp));
                    // marked cells are exactly the old ones plus `u`, and `u`
                    // was just shown optimal
                    assert forall|v: (int, int)|
                        grid.in_bounds(v) && #[trigger] vis(vst@, wd, v) implies dat(dist@, wd, v)
                        < INF && (forall|p: Seq<(int, int)>|
                        path_from_to(*grid, p, sp, v) ==> #[trigger] path_cost(*grid, p) >= dat(
                            dist@,
                            wd,
                            v,
                        )) by {
                        lemma_idx_bounds(wd, hd, v);
                        if idx(wd, v) == iu as int {
                            lemma_idx_inj(wd, hd, v, up);
                            assert(v == up);
                        } else {
                            assert(vis(prev_vst, wd, v));
                        }
                    }
                    assert(settled_optimal(*grid, sp, dist@, vst@));
                    // the new mark leaves every recorded cost in place
                    assert(forall|v: (int, int)|
                        grid.in_bounds(v) ==> #[trigger] dat(dist@, wd, v) == dat(prev_dist, wd, v));
                    assert(dat(dist@, wd, up) == du as int);
                    assert(dat(dist@, wd, up) + 9 < INF) by {
                        assert(dat(prev_dist, wd, up) <= 9 * cprev);
                        assert(cprev <= n);
                    }
                }
                let ghost d0 = dist@;
                if u.0 > 0 {
                    relax(grid, &mut dist, &vst, start, u, (u.0 - 1, u.1));
                }
                let ghost d1 = dist@;
                proof {
                    assert(dat(d1, wd, up) == du as int);
                }
                if u.0 + 1 < w {
                    relax(grid, &mut dist, &vst, start, u, (u.0 + 1, u.1));
                }
                let ghost d2 = dist@;
                proof {
                    assert(dat(d2, wd, up) == du as int);
                }
                if u.1 > 0 {
                    relax(grid, &mut dist, &vst, start, u, (u.0, u.1 - 1));
                }
                let ghost d3 = dist@;
                proof {
                    assert(dat(d3, wd, up) == du as int);
                }
                if u.1 + 1 < h {
                    relax(grid, &mut dist, &vst, start, u, (u.0, u.1 + 1));
                }
                let ghost d4 = dist@;
                proof {
                    assert(dat(d4, wd, up) == du as int);
                    // every cell either kept its cost or took a step from `u`
                    assert forall|c: (int, int)| grid.in_bounds(c) implies (#[trigger] dat(
                        d4,
                        wd,
                        c,
                    ) == dat(d0, wd, c) || dat(d4, wd, c) == du + grid.weight_at(c)) by {
                        assert(dat(d1, wd, c) == dat(d0, wd, c) || dat(d1, wd, c) == du
                            + grid.weight_at(c));
                        assert(dat(d2, wd, c) == dat(d1, wd, c) || dat(d2, wd, c) == du
                            + grid.weight_at(c));
                        assert(dat(d3, wd, c) == dat(d2, wd, c) || dat(d3, wd, c) == du
                            + grid.weight_at(c));
                        assert(dat(d4, wd, c) == dat(d3, wd, c) || dat(d4, wd, c) == du
                            + grid.weight_at(c));
                    }
                    assert forall|c: (int, int)| grid.in_bounds(c) implies #[trigger] dat(
                        d4,
                        wd,
                        c,
                    ) <= dat(d0, wd, c) by {}
                    // recorded costs stay within 9 per marked cell
                    assert forall|v: (int, int)|
                        grid.in_bounds(v) && #[trigger] dat(d4, wd, v) < INF implies dat(d4, wd, v)
                        <= 9 * count_true(vst@) by {
                        if dat(d4, wd, v) == dat(d0, wd, v) {
                            assert(dat(prev_dist, wd, v) < INF);
                        } else {
                            assert(dat(d4, wd, v) == du + grid.weight_at(v));
                            assert(du <= 9 * cprev);
                            assert(grid.weight_at(v) <= 9);
                        }
                    }
                    assert(dist_bounded(*grid, dist@, vst@));
                    // every edge out of a marked cell is relaxed: old marks by
                    // monotonicity, the new mark by the four calls above
                    assert forall|a: (int, int), b: (int, int)|
                        #![trigger vis(vst@, wd, a), dat(dist@, wd, b)]
                        grid.in_bounds(a) && grid.in_bounds(b) && adjacent(a, b) && vis(
                            vst@,
                            wd,
                            a,
                        ) implies dat(dist@, wd, b) <= dat(dist@, wd, a) + grid.weight_at(b) by {
                        lemma_idx_bounds(wd, hd, a);
                        if idx(wd, a) == iu as int {
                            lemma_idx_inj(wd, hd, a, up);
                            assert(a == up);
                            // b is one of the four neighbours of u
                            if b.0 == up.0 - 1 && b.1 == up.1 {
                                assert(dat(d1, wd, b) <= du + grid.weight_at(b));
                            } else if b.0 == up.0 + 1 && b.1 == up.1 {
                                assert(dat(d2, wd, b) <= du + grid.weight_at(b));
                            } else if b.0 == up.0 && b.1 == up.1 - 1 {
                                assert(dat(d3, wd, b) <= du + grid.weight_at(b));
                            } else {
                                assert(b.0 == up.0 && b.1 == up.1 + 1);
                                assert(dat(d4, wd, b) <= du + grid.weight_at(b));
                            }
                        } else {
                            assert(vis(prev_vst, wd, a));
                            assert(dat(prev_dist, wd, b) <= dat(prev_dist, wd, a)
                                + grid.weight_at(b));
                            assert(vis(vst@, wd, a));
                            assert(dat(d4, wd, a) == dat(prev_dist, wd, a));
                            assert(dat(d4, wd, b) <= dat(prev_dist, wd, b));
                        }
                    }
                    assert(edges_relaxed(*grid, dist@, vst@));
                    assert(dat(dist@, wd, sp) == 0) by {
                        assert(dat(d4, wd, sp) <= dat(d0, wd, sp));
                    }
                    lemma_count_true_le(vst@);
                }
            },
        }
    }
}

/// Cost of putting `a` in front of a walk: the old first cell starts being
/// charged, the new one is free.
proof fn lemma_cost_cons(g: Grid, a: (int, int), r: Seq<(int, int)>)
    ensures
        path_cost(g, seq![a].add(r)) == path_cost(g, r) + (if r.len() >= 1 {
            g.weight_at(r[0])
        } else {
            0
        }),
    decreases r.len(),
{
    let l = seq![a].add(r);
    if r.len() == 0 {
        assert(l.len() == 1);
        assert(path_cost(g, l) == 0);
        assert(path_cost(g, r) == 0);
    } else if r.len() == 1 {
        assert(l.drop_last() =~= seq![a]);
        assert(l.last() == r[0]);
        assert(path_cost(g, seq![a]) == 0);
        assert(path_cost(g, r) == 0);
        assert(path_cost(g, l) == path_cost(g, l.drop_last()) + g.weight_at(l.last()));
    } else {
        lemma_cost_cons(g, a, r.drop_last());
        assert(l.drop_last() =~= seq![a].add(r.drop_last()));
        assert(l.last() == r.last());
        assert(r.drop_last()[0] == r[0]);
        assert(l.len() >= 2);
        assert(path_cost(g, l) == path_cost(g, l.drop_last()) + g.weight_at(l.last()));
        assert(path_cost(g, l.drop_last()) == path_cost(g, r.drop_last()) + g.weight_at(r[0]));
        assert(path_cost(g, r) == path_cost(g, r.drop_last()) + g.weight_at(r.last()));
    }
}

/// Reversing a walk keeps it a walk; its cost changes by swapping which of
/// the two end cells goes uncharged.
proof fn lemma_path_reverse(g: Grid, p: Seq<(int, int)>)
    requires
        g.wf(),
        is_path(g, p),
    ensures
        is_path(g, p.reverse()),
        p.reverse()[0] == p.last(),
        p.reverse().last() == p[0],
        path_cost(g, p.reverse()) == path_cost(g, p) + g.weight_at(p[0]) - g.weight_at(p.last()),
    decreases p.len(),
{
    let rv = p.reverse();
    assert forall|i: int| 0 <= i < rv.len() implies g.in_bounds(#[trigger] rv[i]) by {
        assert(rv[i] == p[p.len() - 1 - i]);
    }
    assert forall|i: int| 0 <= i < rv.len() - 1 implies adjacent(#[trigger] rv[i], rv[i + 1]) by {
        let j = p.len() - 2 - i;
        assert(adjacent(p[j], p[j + 1]));
        assert(rv[i] == p[j + 1] && rv[i + 1] == p[j]);
    }
    if p.len() == 1 {
        assert(rv =~= p);
    } else {
        let q = p.drop_last();
        let z = p.last();
        assert(is_path(g, q)) by {
            lemma_path_prefix(g, p, p.len() - 1);
            assert(p.take(p.len() - 1) =~= q);
        }
        lemma_path_reverse(g, q);
        assert(rv =~= seq![z].add(q.reverse()));
        lemma_cost_cons(g, z, q.reverse());
        assert(q.reverse()[0] == q.last());
        assert(q.last() == p[p.len() - 2]);
        assert(path_cost(g, p) == path_cost(g, q) + g.weight_at(z));
    }
}

/// Querying the two endpoints in either order gives the same optimal cost,
/// provided the two cells carry the same weight. (The cost convention leaves
/// the first cell uncharged, so swapping endpoints trades one endpoint's
/// weight for the other's.)
pub proof fn lemma_symmetric_query(g: Grid, s: (int, int), t: (int, int), c: int)
    requires
        g.wf(),
        g.in_bounds(s),
        g.in_bounds(t),
        g.weight_at(s) == g.weight_at(t),
        is_optimal_cost(g, s, t, c),
    ensures
        is_optimal_cost(g, t, s, c),
{
    let w = choose|p: Seq<(int, int)>| path_from_to(g, p, s, t) && path_cost(g, p) == c;
    lemma_path_reverse(g, w);
    assert(path_from_to(g, w.reverse(), t, s) && path_cost(g, w.reverse()) == c);
    assert forall|p: Seq<(int, int)>|
        path_from_to(g, p, t, s) implies #[trigger] path_cost(g, p) >= c by {
        lemma_path_reverse(g, p);
        assert(path_from_to(g, p.reverse(), s, t));
        assert(path_cost(g, p.reverse()) >= c);
    }
}

/// The wrap rule used when tiling: weight `wt` shifted by `t` steps, folded
/// back into 1..=9.
pub open spec fn tile_weight(wt: int, t: int) -> int {
    ((wt - 1 + t) % 9) + 1
}

/// `big` is `base` replicated five by five with the weight wrap rule.
pub open spec fn is_tiling(base: Grid, big: Grid) -> bool {
    &&& big.wf()
    &&& big.spec_width() == 5 * base.spec_width()
    &&& big.spec_height() == 5 * base.spec_height()
    &&& forall|tx: int, ty: int, x: int, y: int|
        0 <= tx < 5 && 0 <= ty < 5 && 0 <= x < base.spec_width() && 0 <= y < base.spec_height()
            ==> #[trigger] big.weight_at(
            (tx * base.spec_width() + x, ty * base.spec_height() + y),
        ) == tile_weight(base.weight_at((x, y)), tx + ty)
}

/// The tiling wrap rule keeps every weight inside 1..=9, for every base
/// weight and every tile offset.
pub proof fn lemma_tile_weight_range(wt: int, t: int)
    requires
        1 <= wt <= 9,
        0 <= t <= 8,
    ensures
        1 <= tile_weight(wt, t) <= 9,
{
}

/// Decomposes a coordinate of the tiled grid into tile offset and base
/// coordinate.
proof fn lemma_decompose(x: int, w: int)
    requires
        w >= 1,
        0 <= x < 5 * w,
    ensures
        0 <= x / w < 5,
        0 <= x % w < w,
        x == (x / w) * w + x % w,
{
    vstd::arithmetic::div_mod::lemma_fundamental_div_mod(x, w);
    vstd::arithmetic::div_mod::lemma_mod_bound(x, w);
    vstd::arithmetic::mul::lemma_mul_is_commutative(w, x / w);
    let q = x / w;
    if q >= 5 {
        vstd::arithmetic::mul::lemma_mul_inequality(5, q, w);
        assert(5 * w <= q * w);
    }
    if q < 0 {
        vstd::arithmetic::mul::lemma_mul_inequality(q, -1, w);
        assert(q * w <= -1 * w);
    }
}

/// Two grids of the same shape and weights admit the same walks, at the same
/// costs.
proof fn lemma_cost_congruent(g1: Grid, g2: Grid, p: Seq<(int, int)>)
    requires
        g1.wf(),
        g2.wf(),
        g1.spec_width() == g2.spec_width(),
        g1.spec_height() == g2.spec_height(),
        forall|c: (int, int)| g1.in_bounds(c) ==> #[trigger] g1.weight_at(c) == g2.weight_at(c),
        is_path(g1, p),
    ensures
        is_path(g2, p),
        path_cost(g1, p) == path_cost(g2, p),
    decreases p.len(),
{
    assert forall|i: int| 0 <= i < p.len() implies g2.in_bounds(#[trigger] p[i]) by {
        assert(g1.in_bounds(p[i]));
    }
    if p.len() > 1 {
        assert(is_path(g1, p.drop_last())) by {
            lemma_path_prefix(g1, p, p.len() - 1);
            assert(p.take(p.len() - 1) =~= p.drop_last());
        }
        lemma_cost_congruent(g1, g2, p.drop_last());
        assert(g1.in_bounds(p.last()));
    }
}

/// Replicates the grid five by five, shifting weights by the tile offsets
/// under the wrap rule.
pub fn tile5(base: &Grid) -> (r: Grid)
    requires
        base.wf(),
        base.spec_width() * 5 <= usize::MAX,
        base.spec_height() * 5 <= usize::MAX,
    ensures
        is_tiling(*base, r),
{
    let w = base.width();
    let h = base.height();
    let ghost wd = base.spec_width();
    let ghost hd = base.spec_height();
    let mut rows: Vec<Vec<u8>> = Vec::new();
    let mut ty: usize = 0;
    while ty < 5
        invariant
            0 <= ty <= 5,
            w == wd && h == hd,
            wd == base.spec_width(),
            hd == base.spec_height(),
            base.wf(),
            wd * 5 <= usize::MAX,
            hd * 5 <= usize::MAX,
            rows@.len() == ty * h,
            forall|ry: int| 0 <= ry < rows@.len() ==> (#[trigger] rows@[ry])@.len() == 5 * wd,
            forall|ry: int, rx: int|
                0 <= ry < rows@.len() && 0 <= rx < 5 * wd ==> (#[trigger] rows@[ry]@[rx]) as int
                    == tile_weight(base.weight_at((rx % wd, ry % hd)), rx / wd + ry / hd),
        decreases 5 - ty,
    {
        let mut y: usize = 0;
        while y < h
            invariant
                0 <= y <= h,
                0 <= ty < 5,
                w == wd && h == hd,
                wd == base.spec_width(),
                hd == base.spec_height(),
            wd == base.spec_width(),
            hd == base.spec_height(),
                base.wf(),
                wd * 5 <= usize::MAX,
                hd * 5 <= usize::MAX,
                rows@.len() == ty * h + y,
                forall|ry: int| 0 <= ry < rows@.len() ==> (#[trigger] rows@[ry])@.len() == 5 * wd,
                forall|ry: int, rx: int|
                    0 <= ry < rows@.len() && 0 <= rx < 5 * wd ==> (#[trigger] rows@[ry]@[rx]) as int
                        == tile_weight(base.weight_at((rx % wd, ry % hd)), rx / wd + ry / hd),
            decreases h - y,
        {
            let mut row: Vec<u8> = Vec::new();
            let mut tx: usize = 0;
            while tx < 5
                invariant
                    0 <= tx <= 5,
                    0 <= ty < 5,
                    0 <= y < h,
                    w == wd && h == hd,
                    wd == base.spec_width(),
                    hd == base.spec_height(),
                wd == base.spec_width(),
                hd == base.spec_height(),
            wd == base.spec_width(),
            hd == base.spec_height(),
                    base.wf(),
                    wd * 5 <= usize::MAX,
                    row@.len() == tx * w,
                    forall|rx: int|
                        0 <= rx < row@.len() ==> (#[trigger] row@[rx]) as int == tile_weight(
                            base.weight_at((rx % wd, y as int)),
                            rx / wd + ty,
                        ),
                decreases 5 - tx,
            {
                let mut x: usize = 0;
                while x < w
                    invariant
                        0 <= x <= w,
                        0 <= tx < 5,
                        0 <= ty < 5,
                        0 <= y < h,
                        w == wd && h == hd,
                        wd == base.spec_width(),
                        hd == base.spec_height(),
                    wd == base.spec_width(),
                    hd == base.spec_height(),
                wd == base.spec_width(),
                hd == base.spec_height(),
            wd == base.spec_width(),
            hd == base.spec_height(),
                        base.wf(),
                        wd * 5 <= usize::MAX,
                        row@.len() == tx * w + x,
                        forall|rx: int|
                            0 <= rx < row@.len() ==> (#[trigger] row@[rx]) as int == tile_weight(
                                base.weight_at((rx % wd, y as int)),
                                rx / wd + ty,
                            ),
                    decreases w - x,
                {
                    let wt = base.weight((x, y));
                    let shift = (tx + ty) as u8;
                    let mut v = wt + shift;
                    if v > 9 {
                        v = v - 9;
                    }
                    proof {
                        assert(v as int == tile_weight(wt as int, (tx + ty) as int));
                        vstd::arithmetic::div_mod::lemma_fundamental_div_mod_converse(
                            row@.len() as int,
                            wd,
                            tx as int,
                            x as int,
                        );
                        assert(row@.len() as int == (tx as int) * wd + x);
                    }
                    row.push(v);
                    x = x + 1;
                }
                proof {
                    assert((tx + 1) as int * wd == tx as int * wd + wd) by (nonlinear_arith);
                }
                tx = tx + 1;
            }
            proof {
                assert(row@.len() == 5 * wd) by {
                    assert(row@.len() == 5 * w);
                }
                vstd::arithmetic::div_mod::lemma_fundamental_div_mod_converse(
                    rows@.len() as int,
                    hd,
                    ty as int,
                    y as int,
                );
                assert(rows@.len() as int == (ty as int) * hd + y);
            }
            rows.push(row);
            y = y + 1;
        }
        proof {
            assert((ty + 1) as int * hd == ty as int * hd + hd) by (nonlinear_arith);
        }
        ty = ty + 1;
    }
    proof {
        assert(rows@.len() == 5 * hd);
    }
    let r = Grid { rows };
    proof {
        assert(r.spec_height() == 5 * hd);
        assert(r.rows@[0]@.len() == 5 * wd);
        assert(r.spec_width() == 5 * wd);
        assert forall|cy: int, cx: int|
            0 <= cy < r.rows@.len() && 0 <= cx < r.rows@[0]@.len() implies 1 <= (
        #[trigger] r.rows@[cy]@[cx]) <= 9 by {
            lemma_decompose(cx, wd);
            lemma_decompose(cy, hd);
            assert((r.rows@[cy]@[cx]) as int == tile_weight(
                base.weight_at((cx % wd, cy % hd)),
                cx / wd + cy / hd,
            ));
            assert(1 <= base.weight_at((cx % wd, cy % hd)) <= 9);
            lemma_tile_weight_range(base.weight_at((cx % wd, cy % hd)), cx / wd + cy / hd);
        }
        assert(r.wf());
        assert forall|tx: int, ty2: int, x: int, y: int|
            0 <= tx < 5 && 0 <= ty2 < 5 && 0 <= x < wd && 0 <= y < hd implies #[trigger] r.weight_at(
            (tx * wd + x, ty2 * hd + y),
        ) == tile_weight(base.weight_at((x, y)), tx + ty2) by {
            vstd::arithmetic::div_mod::lemma_fundamental_div_mod_converse(tx * wd + x, wd, tx, x);
            vstd::arithmetic::div_mod::lemma_fundamental_div_mod_converse(
                ty2 * hd + y,
                hd,
                ty2,
                y,
            );
            vstd::arithmetic::mul::lemma_mul_inequality(tx, 4, wd);
            vstd::arithmetic::mul::lemma_mul_inequality(ty2, 4, hd);
            vstd::arithmetic::mul::lemma_mul_nonnegative(tx, wd);
            vstd::arithmetic::mul::lemma_mul_nonnegative(ty2, hd);
        }
    }
    r
}

/// Shortest cost from the top-left to the bottom-right corner.
pub fn part_1(grid: &Grid) -> (r: Option<u64>)
    requires
        grid.wf(),
        grid.spec_width() * grid.spec_height() <= usize::MAX,
        grid.spec_width() * grid.spec_height() * 9 + 9 < u64::MAX,
    ensures
        match r {
            Some(c) => is_optimal_cost(
                *grid,
                (0, 0),
                (grid.spec_width() - 1, grid.spec_height() - 1),
                c as int,
            ),
            None => forall|p: Seq<(int, int)>|
                !(#[trigger] path_from_to(
                    *grid,
                    p,
                    (0, 0),
                    (grid.spec_width() - 1, grid.spec_height() - 1),
                )),
        },
{
    let w = grid.width();
    let h = grid.height();
    a_star(grid, (0, 0), (w - 1, h - 1))
}

/// Shortest corner-to-corner cost across the five-by-five tiled grid. The
/// result speaks about every grid that tiles the input, since the tiling
/// relation fixes each weight.
pub fn part_2(grid: &Grid) -> (r: Option<u64>)
    requires
        grid.wf(),
        grid.spec_width() * 5 <= usize::MAX,
        grid.spec_height() * 5 <= usize::MAX,
        (grid.spec_width() * 5) * (grid.spec_height() * 5) <= usize::MAX,
        (grid.spec_width() * 5) * (grid.spec_height() * 5) * 9 + 9 < u64::MAX,
    ensures
        forall|t: Grid|
            #[trigger] is_tiling(*grid, t) ==> match r {
                Some(c) => is_optimal_cost(
                    t,
                    (0, 0),
                    (5 * grid.spec_width() - 1, 5 * grid.spec_height() - 1),
                    c as int,
                ),
                None => forall|p: Seq<(int, int)>|
                    !(#[trigger] path_from_to(
                        t,
                        p,
                        (0, 0),
                        (5 * grid.spec_width() - 1, 5 * grid.spec_height() - 1),
                    )),
            },
{
    let ghost wd = grid.spec_width();
    let ghost hd = grid.spec_height();
    let tiled = tile5(grid);
    let bw = grid.width() * 5;
    let bh = grid.height() * 5;
    let r = a_star(&tiled, (0, 0), (bw - 1, bh - 1));
    proof {
        let s = (0int, 0int);
        let t0 = (5 * wd - 1, 5 * hd - 1);
        assert forall|t: Grid| #[trigger] is_tiling(*grid, t) implies match r {
            Some(c) => is_optimal_cost(t, s, t0, c as int),
            None => forall|p: Seq<(int, int)>| !(#[trigger] path_from_to(t, p, s, t0)),
        } by {
            assert forall|c: (int, int)| tiled.in_bounds(c) implies #[trigger] tiled.weight_at(c)
                == t.weight_at(c) by {
                lemma_decompose(c.0, wd);
                lemma_decompose(c.1, hd);
                let tx = c.0 / wd;
                let x = c.0 % wd;
                let ty = c.1 / hd;
                let y = c.1 % hd;
                assert(tiled.weight_at((tx * wd + x, ty * hd + y)) == tile_weight(
                    grid.weight_at((x, y)),
                    tx + ty,
                ));
                assert(t.weight_at((tx * wd + x, ty * hd + y)) == tile_weight(
                    grid.weight_at((x, y)),
                    tx + ty,
                ));
            }
            assert forall|c: (int, int)| t.in_bounds(c) implies #[trigger] t.weight_at(c)
                == tiled.weight_at(c) by {
                assert(tiled.in_bounds(c));
                assert(tiled.weight_at(c) == t.weight_at(c));
            }
            match r {
                Some(c) => {
                    let wp = choose|p: Seq<(int, int)>|
                        path_from_to(tiled, p, s, t0) && path_cost(tiled, p) == c as int;
                    lemma_cost_congruent(tiled, t, wp);
                    assert(path_from_to(t, wp, s, t0) && path_cost(t, wp) == c as int);
                    assert forall|p: Seq<(int, int)>|
                        path_from_to(t, p, s, t0) implies #[trigger] path_cost(t, p) >= c as int by {
                        lemma_cost_congruent(t, tiled, p);
                        assert(path_from_to(tiled, p, s, t0));
                        assert(path_cost(tiled, p) >= c as int);
                    }
                },
                None => {
                    assert forall|p: Seq<(int, int)>| !(#[trigger] path_from_to(t, p, s, t0)) by {
                        if path_from_to(t, p, s, t0) {
                            lemma_cost_congruent(t, tiled, p);
                            assert(path_from_to(tiled, p, s, t0));
                        }
                    }
                },
            }
        }
    }
    r
}

} // verus!
