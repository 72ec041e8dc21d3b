//! Probe launching: velocities that land in a target area.
//!
//! The probe starts at the origin; each step adds the velocity to the
//! position, drags the horizontal velocity towards zero and drops the
//! vertical velocity by one. A launch hits when some step lands inside the
//! target rectangle. The search runs over every horizontal velocity up to
//! the target's far edge and every vertical velocity with magnitude up to
//! the target's depth — launches outside that box either fall short, fly
//! past, or dive below the target. The step budget in `hits` covers every
//! launch in the box: a probe that has not landed after that many steps is
//! below the target for good.

use vstd::prelude::*;

verus! {

/// The target rectangle: `(x_lo, x_hi, y_lo, y_hi)`.
pub type Target = (i64, i64, i64, i64);

pub open spec fn tgt_wf(t: Target) -> bool {
    1 <= t.0 <= t.1 <= 10_000 && -10_000 <= t.2 <= t.3 < 0
}

pub open spec fn in_target(t: Target, x: int, y: int) -> bool {
    t.0 <= x <= t.1 && t.2 <= y <= t.3
}

pub open spec fn drag(vx: int) -> int {
    if vx > 0 {
        vx - 1
    } else if vx < 0 {
        vx + 1
    } else {
        0
    }
}

/// Whether the probe, at `(x, y)` moving at `(vx, vy)`, lands in the target
/// within `fuel` more steps.
pub open spec fn sim_hit(t: Target, x: int, y: int, vx: int, vy: int, fuel: int) -> bool
    decreases fuel,
{
    if fuel <= 0 {
        false
    } else {
        let x2 = x + vx;
        let y2 = y + vy;
        if in_target(t, x2, y2) {
            true
        } else {
            sim_hit(t, x2, y2, drag(vx), vy - 1, fuel - 1)
        }
    }
}

/// The launch `(vx, vy)` from the origin hits the target.
pub open spec fn hits(t: Target, vx: int, vy: int) -> bool {
    sim_hit(t, 0, 0, vx, vy, 50_000)
}

/// Once below the target and sinking, the probe never lands.
proof fn lemma_sunk(t: Target, x: int, y: int, vx: int, vy: int, fuel: int)
    requires
        y < t.2,
        vy <= 0,
    ensures
        !sim_hit(t, x, y, vx, vy, fuel),
    decreases fuel,
{
    if fuel > 0 {
        lemma_sunk(t, x + vx, y + vy, drag(vx), vy - 1, fuel - 1);
    }
}

/// The height gained by a launch, by the formula the search keeps.
pub open spec fn apex(vy: int) -> int {
    vy * (vy + 1) / 2
}

/// Number of hitting vertical velocities in `[t.2, t.2 + k)` for this `vx`.
pub open spec fn row_count(t: Target, vx: int, k: int) -> int
    decreases k,
{
    if k <= 0 {
        0
    } else {
        row_count(t, vx, k - 1) + (if hits(t, vx, t.2 + k - 1) {
            1int
        } else {
            0int
        })
    }
}

/// Number of hitting launches with horizontal velocity in `[1, 1 + k)`.
pub open spec fn box_count(t: Target, k: int) -> int
    decreases k,
{
    if k <= 0 {
        0
    } else {
        box_count(t, k - 1) + row_count(t, k, -2 * t.2 + 1)
    }
}

/// Largest apex over the hitting vertical velocities in `[t.2, t.2 + k)`,
/// never below the floor `m`.
pub open spec fn row_best(t: Target, vx: int, k: int, m: int) -> int
    decreases k,
{
    if k <= 0 {
        m
    } else {
        let rest = row_best(t, vx, k - 1, m);
        if hits(t, vx, t.2 + k - 1) && apex(t.2 + k - 1) > rest {
            apex(t.2 + k - 1)
        } else {
            rest
        }
    }
}

pub open spec fn box_best(t: Target, k: int) -> int
    decreases k,
{
    if k <= 0 {
        0
    } else {
        row_best(t, k, -2 * t.2 + 1, box_best(t, k - 1))
    }
}

/// Whether one launch hits, by running the simulation.
fn launch_hits(t: Target, vx: i64, vy: i64) -> (r: bool)
    requires
        tgt_wf(t),
        -20_000 <= vx <= 20_000,
        -20_000 <= vy <= 20_000,
    ensures
        r == hits(t, vx as int, vy as int),
{
    let mut x: i64 = 0;
    let mut y: i64 = 0;
    let mut cvx = vx;
    let mut cvy = vy;
    let mut fuel: i64 = 50_000;
    while fuel > 0
        invariant
            0 <= fuel <= 50_000,
            -20_000 <= vx <= 20_000,
            -20_000 <= vy <= 20_000,
            -20_000 <= cvx <= 20_000,
            -90_000 <= cvy <= 20_000,
            cvy >= vy - (50_000 - fuel),
            -(50_000 - fuel) * 20_000 <= x <= (50_000 - fuel) * 20_000,
            -(50_000 - fuel) * 90_000 <= y <= (50_000 - fuel) * 90_000,
            hits(t, vx as int, vy as int) == sim_hit(
                t,
                x as int,
                y as int,
                cvx as int,
                cvy as int,
                fuel as int,
            ),
            tgt_wf(t),
        decreases fuel,
    {
        proof {
            assert((50_000 - fuel) * 20_000 <= 50_000 * 20_000) by (nonlinear_arith)
                requires
                    0 <= fuel <= 50_000,
            ;
            assert((50_000 - fuel) * 90_000 <= 50_000 * 90_000) by (nonlinear_arith)
                requires
                    0 <= fuel <= 50_000,
            ;
            assert((50_000 - fuel) * 20_000 + 20_000 == (50_000 - (fuel - 1)) * 20_000)
                by (nonlinear_arith);
            assert((50_000 - fuel) * 90_000 + 90_000 == (50_000 - (fuel - 1)) * 90_000)
                by (nonlinear_arith);
        }
        let x2 = x + cvx;
        let y2 = y + cvy;
        if t.0 <= x2 && x2 <= t.1 && t.2 <= y2 && y2 <= t.3 {
            return true;
        }
        if y2 < t.2 && cvy <= 0 {
            proof {
                lemma_sunk(
                    t,
                    x2 as int,
                    y2 as int,
                    drag(cvx as int),
                    cvy as int - 1,
                    fuel as int - 1,
                );
            }
            return false;
        }
        x = x2;
        y = y2;
        cvx = if cvx > 0 {
            cvx - 1
        } else if cvx < 0 {
            cvx + 1
        } else {
            0
        };
        cvy = cvy - 1;
        fuel = fuel - 1;
    }
    false
}

/// Highest apex and number of distinct hitting launches over the searched
/// box of velocities.
pub fn solve(target: Target) -> (r: (i64, u64))
    requires
        tgt_wf(target),
    ensures
        r.0 as int == box_best(target, target.1 as int),
        r.1 as int == box_count(target, target.1 as int),
{
    let mut best: i64 = 0;
    let mut count: u64 = 0;
    let mut vx: i64 = 1;
    while vx <= target.1
        invariant
            tgt_wf(target),
            1 <= vx <= target.1 + 1,
            best as int == box_best(target, vx - 1),
            count as int == box_count(target, vx - 1),
            0 <= best <= 0x4000_0000,
            0 <= count <= 0x4000_0000_0000,
        decreases target.1 - vx + 1,
    {
        let mut vy: i64 = target.2;
        let hi: i64 = -target.2;
        let ghost rbase = best as int;
        while vy <= hi
            invariant
                tgt_wf(target),
                1 <= vx <= target.1,
                hi == -target.2,
                target.2 <= vy <= hi + 1,
                best as int == row_best(target, vx as int, vy - target.2, rbase),
                count as int == box_count(target, vx - 1) + row_count(
                    target,
                    vx as int,
                    vy - target.2,
                ),
                rbase <= best,
                0 <= best <= 0x4000_0000,
                0 <= count <= 0x4000_0000_0000,
                box_count(target, vx - 1) >= 0,
                rbase == box_best(target, vx - 1),
            decreases hi - vy + 1,
        {
            let h = launch_hits(target, vx, vy);
            if h {
                proof {
                    assert(-10_000 <= vy <= 10_000);
                    assert(0 <= vy * (vy + 1) && vy * (vy + 1) <= 0x8000_0000) by (nonlinear_arith)
                        requires
                            -10_000 <= vy <= 10_000,
                    ;
                    lemma_box_count_bound(target, vx - 1);
                    lemma_row_count_bound(target, vx as int, vy - target.2 + 1);
                }
                let a = vy * (vy + 1) / 2;
                if a > best {
                    best = a;
                }
                count = count + 1;
                proof {
                    lemma_row_count_bound(target, vx as int, vy - target.2 + 1);
                }
            }
            vy = vy + 1;
        }
        vx = vx + 1;
    }
    (best, count)
}

/// Row counts never exceed the number of velocities tried.
proof fn lemma_row_count_bound(t: Target, vx: int, k: int)
    requires
        k >= 0,
    ensures
        0 <= row_count(t, vx, k) <= k,
    decreases k,
{
    if k > 0 {
        lemma_row_count_bound(t, vx, k - 1);
    }
}

/// Box counts never exceed the number of launches tried.
proof fn lemma_box_count_bound(t: Target, k: int)
    requires
        k >= 0,
        tgt_wf(t),
    ensures
        0 <= box_count(t, k) <= k * 20_001,
    decreases k,
{
    if k > 0 {
        lemma_box_count_bound(t, k - 1);
        lemma_row_count_bound(t, k, -2 * t.2 + 1);
        assert((k - 1) * 20_001 + 20_001 == k * 20_001) by (nonlinear_arith);
    }
}

/// The highest apex over the whole searched box.
pub fn part_1(target: Target) -> (r: i64)
    requires
        tgt_wf(target),
    ensures
        r as int == box_best(target, target.1 as int),
{
    solve(target).0
}

/// The number of hitting launches in the whole searched box.
pub fn part_2(target: Target) -> (r: u64)
    requires
        tgt_wf(target),
    ensures
        r as int == box_count(target, target.1 as int),
{
    solve(target).1
}

} // verus!
