//! Folding a sheet of dots.

use vstd::prelude::*;

verus! {

/// A fold line: along `x = n` or along `y = n`.
#[derive(Clone, Copy)]
pub enum Fold {
    X(i64),
    Y(i64),
}

/// Coordinate bound that keeps folding inside an `i64`.
pub const FOLD_BOUND: i64 = 0x1000_0000_0000_0000;

pub open spec fn fold_coord(c: int, n: int) -> int {
    n - (if c >= n {
        c - n
    } else {
        n - c
    })
}

/// Where a dot lands after the fold: coordinates mirror across the line.
pub open spec fn spec_fold_dot(d: (i64, i64), f: Fold) -> (int, int) {
    match f {
        Fold::X(n) => (fold_coord(d.0 as int, n as int), d.1 as int),
        Fold::Y(n) => (d.0 as int, fold_coord(d.1 as int, n as int)),
    }
}

pub open spec fn dot_bounded(d: (i64, i64)) -> bool {
    -FOLD_BOUND < d.0 < FOLD_BOUND && -FOLD_BOUND < d.1 < FOLD_BOUND
}

pub open spec fn fold_bounded(f: Fold) -> bool {
    match f {
        Fold::X(n) => -FOLD_BOUND < n < FOLD_BOUND,
        Fold::Y(n) => -FOLD_BOUND < n < FOLD_BOUND,
    }
}

/// Applies one fold to every dot.
pub fn fold(dots: &mut Vec<(i64, i64)>, f: Fold)
    requires
        forall|i: int| 0 <= i < old(dots)@.len() ==> dot_bounded(#[trigger] old(dots)@[i]),
        fold_bounded(f),
    ensures
        final(dots)@.len() == old(dots)@.len(),
        forall|i: int|
            0 <= i < final(dots)@.len() ==> ((#[trigger] final(dots)@[i]).0 as int, final(dots)@[i].1 as int) == spec_fold_dot(old(dots)@[i], f),
{
    let ghost d0 = dots@;
    let mut i: usize = 0;
    while i < dots.len()
        invariant
            0 <= i <= dots@.len(),
            dots@.len() == d0.len(),
            d0 == old(dots)@,
            forall|j: int| 0 <= j < d0.len() ==> dot_bounded(#[trigger] d0[j]),
            fold_bounded(f),
            forall|j: int| i <= j < d0.len() ==> (#[trigger] dots@[j]) == d0[j],
            forall|j: int|
                0 <= j < i ==> ((#[trigger] dots@[j]).0 as int, dots@[j].1 as int)
                    == spec_fold_dot(d0[j], f),
        decreases dots@.len() - i,
    {
        let (x, y) = dots[i];
        let nd: (i64, i64) = match f {
            Fold::X(n) => {
                let dist = if x >= n {
                    x - n
                } else {
                    n - x
                };
                (n - dist, y)
            },
            Fold::Y(n) => {
                let dist = if y >= n {
                    y - n
                } else {
                    n - y
                };
                (x, n - dist)
            },
        };
        dots[i] = nd;
        i = i + 1;
    }
}

/// Dot `i` is the first of its value in the list.
pub open spec fn first_occurrence(s: Seq<(i64, i64)>, i: int) -> bool {
    forall|j: int| 0 <= j < i ==> (#[trigger] s[j]) != s[i]
}

/// Number of distinct dots among the first `k`.
pub open spec fn distinct_count(s: Seq<(i64, i64)>, k: int) -> int
    decreases k,
{
    if k <= 0 {
        0
    } else {
        distinct_count(s, k - 1) + (if first_occurrence(s, k - 1) {
            1int
        } else {
            0int
        })
    }
}

fn contains_dot(dots: &Vec<(i64, i64)>, upto: usize, d: (i64, i64)) -> (r: bool)
    requires
        upto <= dots@.len(),
    ensures
        r == exists|j: int| 0 <= j < upto && dots@[j] == d,
{
    let mut j: usize = 0;
    while j < upto
        invariant
            0 <= j <= upto <= dots@.len(),
            forall|k: int| 0 <= k < j ==> (#[trigger] dots@[k]) != d,
        decreases upto - j,
    {
        let (a, b) = dots[j];
        if a == d.0 && b == d.1 {
            proof {
                assert(dots@[j as int] == d);
            }
            return true;
        }
        j = j + 1;
    }
    false
}

/// Applies the first fold and counts the distinct dots that remain.
pub fn part_1(dots: Vec<(i64, i64)>, folds: &Vec<Fold>) -> (r: usize)
    requires
        folds@.len() >= 1,
        fold_bounded(folds@[0]),
        forall|i: int| 0 <= i < dots@.len() ==> dot_bounded(#[trigger] dots@[i]),
    ensures
        ({
            let folded = Seq::new(dots@.len(), |i: int| spec_fold_dot(dots@[i], folds@[0]));
            exists|s: Seq<(i64, i64)>|
                #![trigger s.len()]
                s.len() == folded.len() && (forall|i: int|
                    0 <= i < s.len() ==> ((#[trigger] s[i]).0 as int, s[i].1 as int) == folded[i])
                    && r == distinct_count(s, s.len() as int)
        }),
{
    let mut ds = dots;
    let f = folds[0];
    proof {
        assert(f == folds@[0]);
    }
    fold(&mut ds, f);
    let ghost folded = Seq::new(dots@.len(), |i: int| spec_fold_dot(dots@[i], folds@[0]));
    proof {
        assert(ds@.len() == folded.len());
        assert forall|i: int| 0 <= i < ds@.len() implies ((#[trigger] ds@[i]).0 as int, ds@[i].1 as int)
            == folded[i] by {}
    }
    let mut count: usize = 0;
    let mut i: usize = 0;
    while i < ds.len()
        invariant
            0 <= i <= ds@.len(),
            count as int == distinct_count(ds@, i as int),
            count <= i,
        decreases ds@.len() - i,
    {
        let d = ds[i];
        let seen = contains_dot(&ds, i, d);
        if !seen {
            count = count + 1;
            proof {
                assert(first_occurrence(ds@, i as int));
            }
        } else {
            proof {
                assert(!first_occurrence(ds@, i as int));
            }
        }
        i = i + 1;
    }
    proof {
        assert(ds@.len() == folded.len() && (forall|i: int|
            0 <= i < ds@.len() ==> ((#[trigger] ds@[i]).0 as int, ds@[i].1 as int) == folded[i])
            && count == distinct_count(ds@, ds@.len() as int));
    }
    count
}

} // verus!
