//! Revisit-bounded path counting in a cave graph.
//!
//! Caves are numbered nodes; each is small or large. A route runs from the
//! start cave to the end cave along undirected edges. Small caves must not be
//! repeated — except that the relaxed mode lets one single small cave be
//! visited twice per route. Large caves may repeat freely, the start may
//! never be re-entered, and reaching the end finishes the route. The count of
//! routes is defined by the recursion `count_from`, and the search returns
//! exactly that number.

use vstd::prelude::*;

verus! {

/// An undirected cave graph: adjacency lists over nodes `0..n`, a smallness
/// flag per node, and the two distinguished endpoints.
pub struct CaveGraph {
    pub adj: Vec<Vec<usize>>,
    pub small: Vec<bool>,
    pub start: usize,
    pub end: usize,
}

impl CaveGraph {
    pub open spec fn n(self) -> int {
        self.adj@.len() as int
    }

    /// `b` appears in `a`'s adjacency list.
    pub open spec fn has_edge(self, a: int, b: int) -> bool {
        exists|j: int| 0 <= j < self.adj@[a]@.len() && self.adj@[a]@[j] == b
    }

    /// Well-formed: consistent sizes, in-range neighbour entries without
    /// duplicates, symmetric edges, small endpoints, and no edge joining two
    /// large caves (such an edge would allow unboundedly long routes).
    pub open spec fn wf(self) -> bool {
        &&& self.small@.len() == self.n()
        &&& 0 <= self.start < self.n()
        &&& 0 <= self.end < self.n()
        &&& self.start != self.end
        &&& self.small@[self.start as int]
        &&& self.small@[self.end as int]
        &&& forall|a: int, j: int|
            0 <= a < self.n() && 0 <= j < self.adj@[a]@.len() ==> 0 <= (#[trigger] self.adj@[a]@[j])
                < self.n()
        &&& forall|a: int, i: int, j: int|
            0 <= a < self.n() && 0 <= i < j < self.adj@[a]@.len() ==> (#[trigger] self.adj@[a]@[i])
                != (#[trigger] self.adj@[a]@[j])
        &&& forall|a: int, b: int|
            0 <= a < self.n() && 0 <= b < self.n() && #[trigger] self.has_edge(a, b)
                ==> self.has_edge(b, a)
        &&& forall|a: int, j: int|
            0 <= a < self.n() && 0 <= j < self.adj@[a]@.len() ==> (self.small@[a]
                || self.small@[(#[trigger] self.adj@[a]@[j]) as int])
    }
}

/// Number of small caves not yet marked visited.
pub open spec fn unvisited_smalls(small: Seq<bool>, vst: Seq<bool>, n: int) -> nat
    decreases n,
{
    if n <= 0 {
        0
    } else if small[n - 1] && !vst[n - 1] {
        unvisited_smalls(small, vst, n - 1) + 1
    } else {
        unvisited_smalls(small, vst, n - 1)
    }
}

/// Termination measure for the route recursion: every legal move shrinks it.
pub open spec fn measure(g: CaveGraph, at: int, vst: Seq<bool>, used: bool) -> int {
    2 * (unvisited_smalls(g.small@, vst, g.n()) as int) + (if used {
        0int
    } else {
        2int
    }) + (if 0 <= at < g.n() && g.small@[at] {
        1int
    } else {
        0int
    })
}

/// Number of routes from `at` to the end cave, given the set of small caves
/// already visited and whether the one-revisit allowance is spent. The
/// recursion sums, over every neighbour of `at`, the routes through it.
pub open spec fn count_from(g: CaveGraph, at: int, vst: Seq<bool>, used: bool) -> int
    decreases measure(g, at, vst, used), g.adj@[at]@.len() + 1, 1int,
{
    count_list(g, at, vst, used, g.adj@[at]@.len() as int)
}

/// Routes through the first `k` neighbours of `at`.
pub open spec fn count_list(g: CaveGraph, at: int, vst: Seq<bool>, used: bool, k: int) -> int
    decreases measure(g, at, vst, used), k, 1int,
{
    if k <= 0 || k > g.adj@[at]@.len() {
        0
    } else {
        count_list(g, at, vst, used, k - 1) + count_step(g, at, g.adj@[at]@[k - 1] as int, vst, used)
    }
}

/// Routes gained by stepping from `at` to its neighbour `d`: the end counts
/// one route, the start is barred, a large cave continues unchanged, a fresh
/// small cave is marked, and a repeated small cave spends the allowance.
pub open spec fn count_step(g: CaveGraph, at: int, d: int, vst: Seq<bool>, used: bool) -> int
    decreases measure(g, at, vst, used), 0int, 0int,
        via count_step_decreases
{
    if !(0 <= at < g.n() && 0 <= d < g.n() && g.n() == g.small@.len() && g.n() == vst.len()) {
        0
    } else if d == g.end {
        1
    } else if d == g.start {
        0
    } else if !g.small@[d] {
        if g.small@[at] {
            count_from(g, d, vst, used)
        } else {
            0
        }
    } else if !vst[d] {
        count_step_mark(g, d, vst, used)
    } else if !used {
        count_from(g, d, vst, true)
    } else {
        0
    }
}

/// Marks a fresh small cave and continues; split out so the measure drop
/// from the marking is its own proof step.
pub open spec fn count_step_mark(g: CaveGraph, d: int, vst: Seq<bool>, used: bool) -> int
    decreases measure(g, d, vst.update(d, true), used), g.adj@[d]@.len() + 1, 2int,
{
    count_from(g, d, vst.update(d, true), used)
}

#[via_fn]
proof fn count_step_decreases(g: CaveGraph, at: int, d: int, vst: Seq<bool>, used: bool) {
    if 0 <= at < g.n() && 0 <= d < g.n() && g.n() == g.small@.len() && g.n() == vst.len() && d
        != g.end && d != g.start && g.small@[d] && !vst[d] {
        lemma_mark_small(g.small@, vst, g.n(), d);
    }
}

/// Marking one unvisited small cave lowers the unvisited count by one.
proof fn lemma_mark_small(small: Seq<bool>, vst: Seq<bool>, n: int, d: int)
    requires
        0 <= d < n,
        n <= vst.len(),
        n <= small.len(),
        small[d],
        !vst[d],
    ensures
        unvisited_smalls(small, vst.update(d, true), n) == unvisited_smalls(small, vst, n) - 1,
    decreases n,
{
    let v2 = vst.update(d, true);
    if d == n - 1 {
        assert(unvisited_smalls(small, v2, n - 1) == unvisited_smalls(small, vst, n - 1)) by {
            lemma_unvisited_agree(small, vst, v2, n - 1);
        }
    } else {
        lemma_mark_small(small, vst, n - 1, d);
    }
}

/// The count only looks at marks below `n`.
proof fn lemma_unvisited_agree(small: Seq<bool>, v1: Seq<bool>, v2: Seq<bool>, n: int)
    requires
        forall|i: int| 0 <= i < n ==> v1[i] == v2[i],
    ensures
        unvisited_smalls(small, v1, n) == unvisited_smalls(small, v2, n),
    decreases n,
{
    if n > 0 {
        lemma_unvisited_agree(small, v1, v2, n - 1);
    }
}

/// Route counts are never negative.
proof fn lemma_from_nonneg(g: CaveGraph, at: int, vst: Seq<bool>, used: bool)
    ensures
        count_from(g, at, vst, used) >= 0,
    decreases measure(g, at, vst, used), g.adj@[at]@.len() + 1, 1int,
{
    lemma_list_nonneg(g, at, vst, used, g.adj@[at]@.len() as int);
}

proof fn lemma_list_nonneg(g: CaveGraph, at: int, vst: Seq<bool>, used: bool, k: int)
    ensures
        count_list(g, at, vst, used, k) >= 0,
    decreases measure(g, at, vst, used), k, 1int,
{
    if !(k <= 0 || k > g.adj@[at]@.len()) {
        lemma_list_nonneg(g, at, vst, used, k - 1);
        lemma_step_nonneg(g, at, g.adj@[at]@[k - 1] as int, vst, used);
    }
}

proof fn lemma_step_nonneg(g: CaveGraph, at: int, d: int, vst: Seq<bool>, used: bool)
    ensures
        count_step(g, at, d, vst, used) >= 0,
    decreases measure(g, at, vst, used), 0int, 0int,
{
    if 0 <= at < g.n() && 0 <= d < g.n() && g.n() == g.small@.len() && g.n() == vst.len() && d
        != g.end && d != g.start {
        if !g.small@[d] {
            if g.small@[at] {
                lemma_from_nonneg(g, d, vst, used);
            }
        } else if !vst[d] {
            lemma_mark_small(g.small@, vst, g.n(), d);
            lemma_from_nonneg(g, d, vst.update(d, true), used);
        } else if !used {
            lemma_from_nonneg(g, d, vst, true);
        }
    }
}

/// Earlier neighbours only ever add routes.
proof fn lemma_list_mono(g: CaveGraph, at: int, vst: Seq<bool>, used: bool, k1: int, k2: int)
    requires
        k1 <= k2 <= g.adj@[at]@.len(),
    ensures
        count_list(g, at, vst, used, k1) <= count_list(g, at, vst, used, k2),
    decreases k2 - k1,
{
    if k1 < k2 {
        lemma_list_mono(g, at, vst, used, k1, k2 - 1);
        if k2 > 0 {
            lemma_step_nonneg(g, at, g.adj@[at]@[k2 - 1] as int, vst, used);
        }
    }
}

/// Relaxed mode never counts fewer routes than strict mode: every route that
/// is legal with the revisit allowance spent is also legal while it is still
/// available.
pub proof fn lemma_relaxed_counts_at_least_strict(g: CaveGraph, at: int, vst: Seq<bool>)
    ensures
        count_from(g, at, vst, true) <= count_from(g, at, vst, false),
    decreases measure(g, at, vst, false), g.adj@[at]@.len() + 1, 1int,
{
    lemma_rel_list(g, at, vst, g.adj@[at]@.len() as int);
}

proof fn lemma_rel_list(g: CaveGraph, at: int, vst: Seq<bool>, k: int)
    ensures
        count_list(g, at, vst, true, k) <= count_list(g, at, vst, false, k),
    decreases measure(g, at, vst, false), k, 1int,
{
    if !(k <= 0 || k > g.adj@[at]@.len()) {
        lemma_rel_list(g, at, vst, k - 1);
        lemma_rel_step(g, at, g.adj@[at]@[k - 1] as int, vst);
    }
}

proof fn lemma_rel_step(g: CaveGraph, at: int, d: int, vst: Seq<bool>)
    ensures
        count_step(g, at, d, vst, true) <= count_step(g, at, d, vst, false),
    decreases measure(g, at, vst, false), 0int, 0int,
{
    if 0 <= at < g.n() && 0 <= d < g.n() && g.n() == g.small@.len() && g.n() == vst.len() && d
        != g.end && d != g.start {
        if !g.small@[d] {
            if g.small@[at] {
                lemma_relaxed_counts_at_least_strict(g, d, vst);
            }
        } else if !vst[d] {
            lemma_mark_small(g.small@, vst, g.n(), d);
            lemma_relaxed_counts_at_least_strict(g, d, vst.update(d, true));
        } else {
            lemma_step_nonneg(g, at, d, vst, false);
        }
    }
}

/// One neighbour's routes never exceed the whole sum, so an overflowing
/// child means an overflowing total.
proof fn lemma_step_le_from(g: CaveGraph, at: int, vst: Seq<bool>, used: bool, k: int)
    requires
        1 <= k <= g.adj@[at]@.len(),
    ensures
        count_step(g, at, g.adj@[at]@[k - 1] as int, vst, used) <= count_from(g, at, vst, used),
        count_list(g, at, vst, used, k) <= count_from(g, at, vst, used),
{
    lemma_list_nonneg(g, at, vst, used, k - 1);
    lemma_list_mono(g, at, vst, used, k, g.adj@[at]@.len() as int);
}

/// Depth-first count of the routes from `at`, with `vst` marking the small
/// caves already on the current route. Restores `vst` before returning.
/// `None` exactly when the count overflows a `u64`.
fn count_exec(g: &CaveGraph, at: usize, vst: &mut Vec<bool>, used: bool) -> (r: Option<u64>)
    requires
        g.wf(),
        at < g.n(),
        old(vst)@.len() == g.n(),
    ensures
        final(vst)@ == old(vst)@,
        match r {
            Some(c) => c as int == count_from(*g, at as int, old(vst)@, used),
            None => count_from(*g, at as int, old(vst)@, used) > u64::MAX,
        },
    decreases measure(*g, at as int, old(vst)@, used), 1int,
{
    let ghost vst0 = old(vst)@;
    let deg = g.adj[at].len();
    let mut total: u64 = 0;
    let mut k: usize = 0;
    while k < deg
        invariant
            g.wf(),
            at < g.n(),
            vst@.len() == g.n(),
            vst@ == vst0,
            vst0 == old(vst)@,
            0 <= k <= deg,
            deg == g.adj@[at as int]@.len(),
            total as int == count_list(*g, at as int, vst0, used, k as int),
        decreases deg - k,
    {
        let d = g.adj[at][k];
        let ghost sc = count_step(*g, at as int, d as int, vst0, used);
        let step: u64;
        if d == g.end {
            step = 1;
            proof {
                assert(sc == 1);
            }
        } else if d == g.start {
            step = 0;
            proof {
                assert(sc == 0);
            }
        } else if !g.small[d] {
            proof {
                assert(g.small@[at as int]);
            }
            match count_exec(g, d, vst, used) {
                Some(c) => {
                    step = c;
                    proof {
                        assert(sc == count_from(*g, d as int, vst0, used));
                    }
                },
                None => {
                    proof {
                        lemma_step_le_from(*g, at as int, vst0, used, k as int + 1);
                    }
                    return None;
                },
            }
        } else if !vst[d] {
            vst[d] = true;
            proof {
                lemma_mark_small(g.small@, vst0, g.n(), d as int);
                assert(vst@ =~= vst0.update(d as int, true));
            }
            let rec = count_exec(g, d, vst, used);
            vst[d] = false;
            proof {
                assert(vst@ =~= vst0);
            }
            match rec {
                Some(c) => {
                    step = c;
                    proof {
                        assert(sc == count_step_mark(*g, d as int, vst0, used));
                        assert(sc == count_from(*g, d as int, vst0.update(d as int, true), used));
                    }
                },
                None => {
                    proof {
                        assert(count_step_mark(*g, d as int, vst0, used) > u64::MAX);
                        lemma_step_le_from(*g, at as int, vst0, used, k as int + 1);
                    }
                    return None;
                },
            }
        } else if !used {
            match count_exec(g, d, vst, true) {
                Some(c) => {
                    step = c;
                    proof {
                        assert(sc == count_from(*g, d as int, vst0, true));
                    }
                },
                None => {
                    proof {
                        lemma_step_le_from(*g, at as int, vst0, used, k as int + 1);
                    }
                    return None;
                },
            }
        } else {
            step = 0;
            proof {
                assert(sc == 0);
            }
        }
        match total.checked_add(step) {
            Some(t) => {
                total = t;
                proof {
                    assert(total as int == count_list(*g, at as int, vst0, used, k as int + 1));
                }
            },
            None => {
                proof {
                    assert(count_list(*g, at as int, vst0, used, k as int + 1) > u64::MAX);
                    lemma_step_le_from(*g, at as int, vst0, used, k as int + 1);
                }
                return None;
            },
        }
        k = k + 1;
    }
    proof {
        assert(total as int == count_from(*g, at as int, vst0, used));
    }
    Some(total)
}

/// The pair `{a, b}` appears among the given undirected edges.
pub open spec fn edge_listed(es: Seq<(usize, usize)>, a: int, b: int) -> bool {
    exists|k: int|
        0 <= k < es.len() && ((#[trigger] es[k]).0 == a && es[k].1 == b || (es[k].0 == b && es[k].1
            == a))
}

/// Acceptable construction input: consistent sizes, distinct small endpoints,
/// and every edge inside the node range with at least one small endpoint.
pub open spec fn edges_ok(
    n: int,
    small: Seq<bool>,
    start: int,
    end: int,
    es: Seq<(usize, usize)>,
) -> bool {
    &&& small.len() == n
    &&& 0 <= start < n
    &&& 0 <= end < n
    &&& start != end
    &&& small[start]
    &&& small[end]
    &&& forall|k: int|
        0 <= k < es.len() ==> (#[trigger] es[k]).0 < n && es[k].1 < n && (small[es[k].0 as int]
            || small[es[k].1 as int])
}

/// Whether `x` occurs in the list.
fn contains_val(row: &Vec<usize>, x: usize) -> (r: bool)
    ensures
        r == exists|j: int| 0 <= j < row@.len() && row@[j] == x,
{
    let mut i: usize = 0;
    while i < row.len()
        invariant
            0 <= i <= row@.len(),
            forall|j: int| 0 <= j < i ==> row@[j] != x,
        decreases row@.len() - i,
    {
        if row[i] == x {
            return true;
        }
        i = i + 1;
    }
    false
}

/// Adds `x` to the list unless it is already there, keeping entries unique.
fn ensure_val(row: &mut Vec<usize>, x: usize)
    requires
        forall|i: int, j: int|
            0 <= i < j < old(row)@.len() ==> (#[trigger] old(row)@[i]) != (#[trigger] old(row)@[j]),
    ensures
        forall|i: int, j: int|
            0 <= i < j < final(row)@.len() ==> (#[trigger] final(row)@[i])
                != (#[trigger] final(row)@[j]),
        forall|b: int|
            #![trigger mem_of(final(row)@, b)]
            mem_of(final(row)@, b) <==> (mem_of(old(row)@, b) || b == x),
{
    proof {
        assert forall|b: int| #[trigger] mem_of(row@, b) implies b >= 0 by {
            let j = choose|j: int| 0 <= j < row@.len() && row@[j] == b;
        }
    }
    if !contains_val(row, x) {
        let ghost r0 = row@;
        row.push(x);
        proof {
            assert(row@[r0.len() as int] == x);
            assert forall|b: int| #[trigger] mem_of(row@, b) implies (mem_of(r0, b) || b == x) by {
                let j = choose|j: int| 0 <= j < row@.len() && row@[j] == b;
                if j < r0.len() {
                    assert(r0[j] == b);
                }
            }
            assert forall|b: int| mem_of(r0, b) implies #[trigger] mem_of(row@, b) by {
                let j = choose|j: int| 0 <= j < r0.len() && r0[j] == b;
                assert(row@[j] == b);
            }
            assert(mem_of(row@, x as int));
            assert forall|i: int, j: int| 0 <= i < j < row@.len() implies (#[trigger] row@[i]) != (
            #[trigger] row@[j]) by {
                if j == r0.len() as int {
                    assert(!mem_of(r0, x as int));
                    assert(r0[i] == row@[i]);
                }
            }
        }
    } else {
        proof {
            assert(mem_of(row@, x as int));
        }
    }
}

/// `b` occurs among the list's entries.
pub open spec fn mem_of(row: Seq<usize>, b: int) -> bool {
    exists|j: int| 0 <= j < row.len() && row[j] == b
}

/// Builds the cave graph for a list of undirected edges. Each node's
/// neighbour list collects every node paired with it, without duplicates.
/// `None` exactly when the input is not acceptable.
pub fn from_edges(
    n: usize,
    small: Vec<bool>,
    start: usize,
    end: usize,
    edges: &Vec<(usize, usize)>,
) -> (r: Option<CaveGraph>)
    ensures
        match r {
            Some(g) => {
                &&& g.wf()
                &&& g.n() == n
                &&& g.small@ == small@
                &&& g.start == start
                &&& g.end == end
                &&& forall|a: int, b: int|
                    0 <= a < n && 0 <= b < n ==> (#[trigger] g.has_edge(a, b) <==> edge_listed(
                        edges@,
                        a,
                        b,
                    ))
            },
            None => !edges_ok(n as int, small@, start as int, end as int, edges@),
        },
{
    if small.len() != n || start >= n || end >= n || start == end {
        return None;
    }
    if !small[start] || !small[end] {
        return None;
    }
    let mut k: usize = 0;
    while k < edges.len()
        invariant
            0 <= k <= edges@.len(),
            n == small@.len(),
            forall|j: int|
                0 <= j < k ==> (#[trigger] edges@[j]).0 < n && edges@[j].1 < n && (small@[edges@[j].0 as int]
                    || small@[edges@[j].1 as int]),
        decreases edges@.len() - k,
    {
        let (a, b) = edges[k];
        if a >= n || b >= n {
            return None;
        }
        if !small[a] && !small[b] {
            return None;
        }
        k = k + 1;
    }
    let mut adj: Vec<Vec<usize>> = Vec::new();
    let mut a: usize = 0;
    while a < n
        invariant
            0 <= a <= n,
            adj@.len() == a,
            n == small@.len(),
            forall|x: int, i: int, j: int|
                0 <= x < a && 0 <= i < j < adj@[x]@.len() ==> (#[trigger] adj@[x]@[i]) != (
                #[trigger] adj@[x]@[j]),
            forall|x: int, b: int|
                #![trigger edge_listed(edges@, x, b)]
                0 <= x < a ==> (mem_of(adj@[x]@, b) <==> edge_listed(edges@, x, b)),
        decreases n - a,
    {
        let mut row: Vec<usize> = Vec::new();
        let mut k: usize = 0;
        while k < edges.len()
            invariant
                0 <= k <= edges@.len(),
                0 <= a < n,
                forall|i: int, j: int|
                    0 <= i < j < row@.len() ==> (#[trigger] row@[i]) != (#[trigger] row@[j]),
                forall|b: int|
                    #![trigger mem_of(row@, b)]
                    mem_of(row@, b) <==> edge_listed(edges@.take(k as int), a as int, b),
            decreases edges@.len() - k,
        {
            let ghost prefix = edges@.take(k as int);
            let ghost prefix2 = edges@.take(k as int + 1);
            let ghost r0 = row@;
            let (x, y) = edges[k];
            proof {
                assert(prefix2.drop_last() =~= prefix);
                assert(prefix2.last() == edges@[k as int]);
            }
            if x == a {
                ensure_val(&mut row, y);
            }
            let ghost r1 = row@;
            if y == a && y != x {
                ensure_val(&mut row, x);
            }
            proof {
                assert forall|b: int| #[trigger] mem_of(row@, b) implies edge_listed(
                    prefix2,
                    a as int,
                    b,
                ) by {
                    if edge_listed(prefix, a as int, b) {
                        let kk = choose|kk: int|
                            0 <= kk < prefix.len() && ((#[trigger] prefix[kk]).0 == a as int
                                && prefix[kk].1 == b || (prefix[kk].0 == b && prefix[kk].1
                                == a as int));
                        assert(prefix2[kk] == prefix[kk]);
                    } else {
                        assert(b == x as int || b == y as int);
                        assert(prefix2[k as int] == edges@[k as int]);
                    }
                }
                assert forall|b: int| edge_listed(prefix2, a as int, b) implies #[trigger] mem_of(
                    row@,
                    b,
                ) by {
                    let kk = choose|kk: int|
                        0 <= kk < prefix2.len() && ((#[trigger] prefix2[kk]).0 == a as int
                            && prefix2[kk].1 == b || (prefix2[kk].0 == b && prefix2[kk].1
                            == a as int));
                    if kk < k as int {
                        assert(prefix[kk] == prefix2[kk]);
                        assert(edge_listed(prefix, a as int, b));
                        assert(mem_of(r0, b));
                        assert(mem_of(r1, b));
                    } else {
                        assert(prefix2[kk] == edges@[k as int]);
                        if x == a as usize && y as int == b {
                            assert(mem_of(r1, b));
                        } else {
                            assert(x as int == b && y == a as usize);
                            if y == x {
                                assert(mem_of(r1, b));
                            }
                        }
                    }
                }
            }
            k = k + 1;
        }
        proof {
            assert(edges@.take(edges@.len() as int) =~= edges@);
        }
        adj.push(row);
        a = a + 1;
    }
    let g = CaveGraph { adj, small, start, end };
    proof {
        assert forall|x: int, b: int| 0 <= x < n && 0 <= b < n implies (#[trigger] g.has_edge(x, b)
            <==> edge_listed(edges@, x, b)) by {
            assert(g.has_edge(x, b) <==> mem_of(g.adj@[x]@, b));
            assert(mem_of(g.adj@[x]@, b) <==> edge_listed(edges@, x, b));
        }
        assert forall|x: int, j: int|
            0 <= x < g.n() && 0 <= j < g.adj@[x]@.len() implies 0 <= (#[trigger] g.adj@[x]@[j])
            < g.n() && (g.small@[x] || g.small@[(g.adj@[x]@[j]) as int]) by {
            let b = g.adj@[x]@[j] as int;
            assert(mem_of(g.adj@[x]@, b));
            assert(edge_listed(edges@, x, b));
            assert(edge_listed(edges@, x, b));
            let kk = choose|kk: int|
                0 <= kk < edges@.len() && ((#[trigger] edges@[kk]).0 == x && edges@[kk].1 == b || (
                edges@[kk].0 == b && edges@[kk].1 == x));
            assert(edges@[kk].0 < n && edges@[kk].1 < n);
        }
        assert forall|x: int, b: int|
            0 <= x < g.n() && 0 <= b < g.n() && #[trigger] g.has_edge(x, b) implies g.has_edge(
            b,
            x,
        ) by {
            assert(mem_of(g.adj@[x]@, b));
            assert(edge_listed(edges@, x, b));
            let kk = choose|kk: int|
                0 <= kk < edges@.len() && ((#[trigger] edges@[kk]).0 == x && edges@[kk].1 == b || (
                edges@[kk].0 == b && edges@[kk].1 == x));
            assert(edge_listed(edges@, b, x));
        }
        assert(g.wf());
    }
    Some(g)
}

/// The mark table a route starts with: only the start cave is marked.
pub open spec fn initial_marks(g: CaveGraph) -> Seq<bool> {
    Seq::new(g.n() as nat, |i: int| i == g.start)
}

/// The number of routes the graph admits in the given mode.
pub open spec fn spec_route_count(g: CaveGraph, allow_one_revisit: bool) -> int {
    count_from(g, g.start as int, initial_marks(g), !allow_one_revisit)
}

/// Counts the distinct routes from the start cave to the end cave. In strict
/// mode no small cave may repeat; with `allow_one_revisit` one small cave may
/// be entered twice. `None` exactly when the count overflows a `u64`.
pub fn count_paths(g: &CaveGraph, allow_one_revisit: bool) -> (r: Option<u64>)
    requires
        g.wf(),
    ensures
        match r {
            Some(c) => c as int == spec_route_count(*g, allow_one_revisit),
            None => spec_route_count(*g, allow_one_revisit) > u64::MAX,
        },
{
    let n = g.adj.len();
    let mut vst: Vec<bool> = Vec::new();
    let mut i: usize = 0;
    while i < n
        invariant
            0 <= i <= n,
            vst@.len() == i,
            forall|j: int| 0 <= j < i ==> vst@[j] == (j == g.start),
        decreases n - i,
    {
        vst.push(i == g.start);
        i = i + 1;
    }
    proof {
        assert(vst@ =~= initial_marks(*g));
    }
    count_exec(g, g.start, &mut vst, !allow_one_revisit)
}

/// Routes with no small cave repeated.
pub fn part_1(g: &CaveGraph) -> (r: Option<u64>)
    requires
        g.wf(),
    ensures
        match r {
            Some(c) => c as int == spec_route_count(*g, false),
            None => spec_route_count(*g, false) > u64::MAX,
        },
{
    count_paths(g, false)
}

/// Routes where a single small cave may be visited twice.
pub fn part_2(g: &CaveGraph) -> (r: Option<u64>)
    requires
        g.wf(),
    ensures
        match r {
            Some(c) => c as int == spec_route_count(*g, true),
            None => spec_route_count(*g, true) > u64::MAX,
        },
{
    count_paths(g, true)
}

} // verus!
