//! Aligning crab positions at minimal total fuel.

use vstd::prelude::*;

verus! {

/// Bound on positions and on the number of crabs; keeps every total inside a
/// `u64`.
pub const POS_BOUND: i64 = 1_000_000;

pub open spec fn dist(x: int, p: int) -> int {
    if x >= p {
        x - p
    } else {
        p - x
    }
}

/// Fuel one crab burns to reach `p`: the distance, or the triangular number
/// of the distance in the second scheme.
pub open spec fn fuel(x: int, p: int, triangular: bool) -> int {
    if triangular {
        dist(x, p) * (dist(x, p) + 1) / 2
    } else {
        dist(x, p)
    }
}

/// Total fuel for all crabs to meet at `p`.
pub open spec fn total_fuel(s: Seq<i64>, p: int, triangular: bool) -> int
    decreases s.len(),
{
    if s.len() == 0 {
        0
    } else {
        total_fuel(s.drop_last(), p, triangular) + fuel(s.last() as int, p, triangular)
    }
}

/// Some meeting point in `[lo, hi]` costs exactly `v`.
pub open spec fn attained(s: Seq<i64>, lo: int, hi: int, triangular: bool, v: int) -> bool {
    exists|p: int| lo <= p <= hi && total_fuel(s, p, triangular) == v
}

/// Every meeting point in `[lo, hi]` costs at least `v`.
pub open spec fn lower_bound(s: Seq<i64>, lo: int, hi: int, triangular: bool, v: int) -> bool {
    forall|p: int| lo <= p <= hi ==> #[trigger] total_fuel(s, p, triangular) >= v
}

pub open spec fn in_pos_bounds(s: Seq<i64>) -> bool {
    forall|i: int| 0 <= i < s.len() ==> -POS_BOUND <= #[trigger] s[i] <= POS_BOUND
}

proof fn lemma_fuel_bounds(x: int, p: int, triangular: bool)
    requires
        -POS_BOUND <= x <= POS_BOUND,
        -POS_BOUND <= p <= POS_BOUND,
    ensures
        0 <= fuel(x, p, triangular) <= 2_000_001_000_000,
{
    let d = dist(x, p);
    assert(0 <= d <= 2_000_000);
    if triangular {
        assert(0 <= d * (d + 1) <= 4_000_002_000_000) by (nonlinear_arith)
            requires
                0 <= d <= 2_000_000,
        ;
    }
}

proof fn lemma_total_fuel_bounds(s: Seq<i64>, p: int, triangular: bool)
    requires
        in_pos_bounds(s),
        s.len() <= 1_000_000,
        -POS_BOUND <= p <= POS_BOUND,
    ensures
        0 <= total_fuel(s, p, triangular) <= s.len() * 2_000_001_000_000,
    decreases s.len(),
{
    if s.len() > 0 {
        assert(in_pos_bounds(s.drop_last()));
        lemma_total_fuel_bounds(s.drop_last(), p, triangular);
        lemma_fuel_bounds(s.last() as int, p, triangular);
        assert((s.len() - 1) * 2_000_001_000_000 + 2_000_001_000_000 == s.len()
            * 2_000_001_000_000) by (nonlinear_arith);
    }
}

/// Fuel for all crabs to meet at `p`.
fn cost_at(input: &Vec<i64>, p: i64, triangular: bool) -> (r: u64)
    requires
        in_pos_bounds(input@),
        input@.len() <= 1_000_000,
        -POS_BOUND <= p <= POS_BOUND,
    ensures
        r as int == total_fuel(input@, p as int, triangular),
{
    let mut total: u64 = 0;
    let mut i: usize = 0;
    while i < input.len()
        invariant
            0 <= i <= input@.len(),
            in_pos_bounds(input@),
            input@.len() <= 1_000_000,
            -POS_BOUND <= p <= POS_BOUND,
            total as int == total_fuel(input@.take(i as int), p as int, triangular),
            total as int <= (i as int) * 2_000_001_000_000,
        decreases input@.len() - i,
    {
        proof {
            assert(input@.take(i + 1).drop_last() =~= input@.take(i as int));
            assert(input@.take(i + 1).last() == input@[i as int]);
            lemma_fuel_bounds(input@[i as int] as int, p as int, triangular);
            assert((i as int) * 2_000_001_000_000 + 2_000_001_000_000 == (i + 1)
                * 2_000_001_000_000) by (nonlinear_arith);
            assert((i + 1) * 2_000_001_000_000 <= 1_000_000i64 * 2_000_001_000_000)
                by (nonlinear_arith)
                requires
                    i + 1 <= 1_000_000,
            ;
        }
        let x = input[i];
        let d: i64 = if x >= p {
            x - p
        } else {
            p - x
        };
        let f: u64 = if triangular {
            ((d * (d + 1)) / 2) as u64
        } else {
            d as u64
        };
        proof {
            assert(f as int == fuel(x as int, p as int, triangular)) by {
                assert(d as int == dist(x as int, p as int));
                if triangular {
                    assert(0 <= d * (d + 1) <= 4_000_002_000_000) by (nonlinear_arith)
                        requires
                            0 <= d <= 2_000_000,
                    ;
                }
            }
        }
        total = total + f;
        i = i + 1;
    }
    proof {
        assert(input@.take(input@.len() as int) =~= input@);
    }
    total
}

/// The least total fuel over every meeting point between the leftmost and
/// rightmost crab.
pub fn solve(input: &Vec<i64>, triangular: bool) -> (r: Option<u64>)
    requires
        in_pos_bounds(input@),
        input@.len() <= 1_000_000,
    ensures
        match r {
            Some(v) => {
                &&& attained(input@, lo_of(input@), hi_of(input@), triangular, v as int)
                &&& lower_bound(input@, lo_of(input@), hi_of(input@), triangular, v as int)
            },
            None => input@.len() == 0,
        },
{
    if input.len() == 0 {
        return None;
    }
    let mut lo = input[0];
    let mut hi = input[0];
    let mut i: usize = 1;
    while i < input.len()
        invariant
            1 <= i <= input@.len(),
            input@.len() >= 1,
            in_pos_bounds(input@),
            lo as int == spec_min_upto(input@, i as int),
            hi as int == spec_max_upto(input@, i as int),
        decreases input@.len() - i,
    {
        let x = input[i];
        if x < lo {
            lo = x;
        }
        if x > hi {
            hi = x;
        }
        i = i + 1;
    }
    let ghost s = input@;
    proof {
        lemma_min_max(s, s.len() as int);
        assert(-POS_BOUND <= lo <= hi <= POS_BOUND);
    }
    let mut best = cost_at(input, lo, triangular);
    let mut p = lo;
    proof {
        assert(total_fuel(s, lo as int, triangular) == best as int);
    }
    while p < hi
        invariant
            lo <= p <= hi,
            -POS_BOUND <= lo,
            hi <= POS_BOUND,
            in_pos_bounds(s),
            s == input@,
            s.len() <= 1_000_000,
            attained(s, lo as int, p as int, triangular, best as int),
            lower_bound(s, lo as int, p as int, triangular, best as int),
        decreases hi - p,
    {
        let q = p + 1;
        let c = cost_at(input, q, triangular);
        if c < best {
            best = c;
            proof {
                assert(lo <= q as int <= q as int && total_fuel(s, q as int, triangular)
                    == best as int);
                assert(attained(s, lo as int, q as int, triangular, best as int));
            }
        } else {
            proof {
                let w = choose|w: int|
                    lo <= w <= p && total_fuel(s, w, triangular) == best as int;
                assert(lo <= w <= q as int && total_fuel(s, w, triangular) == best as int);
                assert(attained(s, lo as int, q as int, triangular, best as int));
            }
        }
        proof {
            assert forall|pp: int| lo <= pp <= q implies #[trigger] total_fuel(
                s,
                pp,
                triangular,
            ) >= best as int by {
                if pp <= p {
                    assert(total_fuel(s, pp, triangular) >= best);
                }
            }
        }
        p = q;
    }
    Some(best)
}

pub open spec fn spec_min_upto(s: Seq<i64>, k: int) -> int
    decreases k,
{
    if k <= 1 {
        s[0] as int
    } else if s[k - 1] < spec_min_upto(s, k - 1) {
        s[k - 1] as int
    } else {
        spec_min_upto(s, k - 1)
    }
}

pub open spec fn spec_max_upto(s: Seq<i64>, k: int) -> int
    decreases k,
{
    if k <= 1 {
        s[0] as int
    } else if s[k - 1] > spec_max_upto(s, k - 1) {
        s[k - 1] as int
    } else {
        spec_max_upto(s, k - 1)
    }
}

pub open spec fn lo_of(s: Seq<i64>) -> int {
    spec_min_upto(s, s.len() as int)
}

pub open spec fn hi_of(s: Seq<i64>) -> int {
    spec_max_upto(s, s.len() as int)
}

proof fn lemma_min_max(s: Seq<i64>, k: int)
    requires
        in_pos_bounds(s),
        1 <= k <= s.len(),
    ensures
        -POS_BOUND <= spec_min_upto(s, k) <= spec_max_upto(s, k) <= POS_BOUND,
    decreases k,
{
    if k > 1 {
        lemma_min_max(s, k - 1);
    }
}

/// Least fuel with one unit per step.
pub fn part_1(input: &Vec<i64>) -> (r: Option<u64>)
    requires
        in_pos_bounds(input@),
        input@.len() <= 1_000_000,
    ensures
        match r {
            Some(v) => attained(input@, lo_of(input@), hi_of(input@), false, v as int)
                && lower_bound(input@, lo_of(input@), hi_of(input@), false, v as int),
            None => input@.len() == 0,
        },
{
    solve(input, false)
}

/// Least fuel with linearly growing step cost.
pub fn part_2(input: &Vec<i64>) -> (r: Option<u64>)
    requires
        in_pos_bounds(input@),
        input@.len() <= 1_000_000,
    ensures
        match r {
            Some(v) => attained(input@, lo_of(input@), hi_of(input@), true, v as int)
                && lower_bound(input@, lo_of(input@), hi_of(input@), true, v as int),
            None => input@.len() == 0,
        },
{
    solve(input, true)
}

} // verus!
