//! Two-player dice games on a circular ten-space track.
//!
//! `part_1` plays the deterministic-die variant to a score of 1000.
//! `count_wins` scores the branching three-sided-die variant: every turn the
//! die is rolled three times, each roll splitting the game three ways, and
//! the result tallies in how many of the resulting branches each player wins.
//! The three rolls are collapsed into their seven possible sums, weighted by
//! multiplicity, which branches identically but far cheaper.

use std::collections::HashMap;
use vstd::prelude::*;

verus! {

broadcast use vstd::std_specs::hash::group_hash_axioms;

/// Track positions wrap from 10 back to 1.
pub open spec fn wrap10(p: int) -> int {
    ((p - 1) % 10) + 1
}

/// How many of the 27 three-roll sequences of a three-sided die sum to `r`.
pub open spec fn roll_weight(r: int) -> int {
    if r == 3 || r == 9 {
        1
    } else if r == 4 || r == 8 {
        3
    } else if r == 5 || r == 7 {
        6
    } else if r == 6 {
        7
    } else {
        0
    }
}

/// A game state seen from the player about to move: positions on the track
/// and accumulated scores, mover first.
pub open spec fn valid_state(pm: int, po: int, sm: int, so: int) -> bool {
    1 <= pm <= 10 && 1 <= po <= 10 && 0 <= sm < 21 && 0 <= so < 21
}

/// Win tallies `(mover, other)` over all branches from this state, with the
/// player listed first about to roll.
pub open spec fn wins_from(pm: int, po: int, sm: int, so: int) -> (int, int)
    decreases 42 - sm - so, 10int, 1int,
{
    if sm >= 21 || so >= 21 || sm < 0 || so < 0 {
        (0, 0)
    } else {
        wins_range(pm, po, sm, so, 9)
    }
}

/// Tally over the die sums `3..=r`, each weighted by its multiplicity.
pub open spec fn wins_range(pm: int, po: int, sm: int, so: int, r: int) -> (int, int)
    decreases 42 - sm - so, r, 1int,
{
    if sm >= 21 || so >= 21 || sm < 0 || so < 0 || r <= 2 {
        (0, 0)
    } else {
        let b = wins_branch(pm, po, sm, so, r);
        let rest = wins_range(pm, po, sm, so, r - 1);
        (rest.0 + roll_weight(r) * b.0, rest.1 + roll_weight(r) * b.1)
    }
}

/// Tally of the single branch where the rolled sum is `r`: the mover either
/// wins outright or the game continues with the players swapped.
pub open spec fn wins_branch(pm: int, po: int, sm: int, so: int, r: int) -> (int, int)
    decreases 42 - sm - so, r, 0int,
{
    if sm >= 21 || so >= 21 || sm < 0 || so < 0 || r <= 2 {
        (0, 0)
    } else {
        let np = wrap10(pm + r);
        let ns = sm + np;
        if ns >= 21 {
            (1, 0)
        } else {
            let w = wins_from(po, np, so, ns);
            (w.1, w.0)
        }
    }
}

/// Number of complete game branches below this state, each weighted by its
/// roll multiplicities.
pub open spec fn total_branches(pm: int, po: int, sm: int, so: int) -> int
    decreases 42 - sm - so, 10int, 1int,
{
    if sm >= 21 || so >= 21 || sm < 0 || so < 0 {
        0
    } else {
        total_range(pm, po, sm, so, 9)
    }
}

pub open spec fn total_range(pm: int, po: int, sm: int, so: int, r: int) -> int
    decreases 42 - sm - so, r, 1int,
{
    if sm >= 21 || so >= 21 || sm < 0 || so < 0 || r <= 2 {
        0
    } else {
        total_range(pm, po, sm, so, r - 1) + roll_weight(r) * total_branch(pm, po, sm, so, r)
    }
}

pub open spec fn total_branch(pm: int, po: int, sm: int, so: int, r: int) -> int
    decreases 42 - sm - so, r, 0int,
{
    if sm >= 21 || so >= 21 || sm < 0 || so < 0 || r <= 2 {
        0
    } else {
        let np = wrap10(pm + r);
        let ns = sm + np;
        if ns >= 21 {
            1
        } else {
            total_branches(po, np, so, ns)
        }
    }
}

/// Win tallies are never negative.
proof fn lemma_wins_nonneg(pm: int, po: int, sm: int, so: int)
    ensures
        wins_from(pm, po, sm, so).0 >= 0,
        wins_from(pm, po, sm, so).1 >= 0,
    decreases 42 - sm - so, 10int, 1int,
{
    if !(sm >= 21 || so >= 21 || sm < 0 || so < 0) {
        lemma_wins_range_nonneg(pm, po, sm, so, 9);
    }
}

proof fn lemma_wins_range_nonneg(pm: int, po: int, sm: int, so: int, r: int)
    ensures
        wins_range(pm, po, sm, so, r).0 >= 0,
        wins_range(pm, po, sm, so, r).1 >= 0,
    decreases 42 - sm - so, r, 1int,
{
    if !(sm >= 21 || so >= 21 || sm < 0 || so < 0 || r <= 2) {
        lemma_wins_branch_nonneg(pm, po, sm, so, r);
        lemma_wins_range_nonneg(pm, po, sm, so, r - 1);
        let b = wins_branch(pm, po, sm, so, r);
        vstd::arithmetic::mul::lemma_mul_nonnegative(roll_weight(r), b.0);
        vstd::arithmetic::mul::lemma_mul_nonnegative(roll_weight(r), b.1);
    }
}

proof fn lemma_wins_branch_nonneg(pm: int, po: int, sm: int, so: int, r: int)
    ensures
        wins_branch(pm, po, sm, so, r).0 >= 0,
        wins_branch(pm, po, sm, so, r).1 >= 0,
    decreases 42 - sm - so, r, 0int,
{
    if !(sm >= 21 || so >= 21 || sm < 0 || so < 0 || r <= 2) {
        let np = wrap10(pm + r);
        let ns = sm + np;
        if ns < 21 {
            assert(0 <= (pm + r - 1) % 10 < 10);
            lemma_wins_nonneg(po, np, so, ns);
        }
    }
}

/// Extending the range of die sums only adds branches.
proof fn lemma_wins_range_mono(pm: int, po: int, sm: int, so: int, r1: int, r2: int)
    requires
        r1 <= r2,
    ensures
        wins_range(pm, po, sm, so, r1).0 <= wins_range(pm, po, sm, so, r2).0,
        wins_range(pm, po, sm, so, r1).1 <= wins_range(pm, po, sm, so, r2).1,
    decreases r2 - r1,
{
    if r1 < r2 {
        lemma_wins_range_mono(pm, po, sm, so, r1, r2 - 1);
        if !(sm >= 21 || so >= 21 || sm < 0 || so < 0 || r2 <= 2) {
            lemma_wins_branch_nonneg(pm, po, sm, so, r2);
            let b = wins_branch(pm, po, sm, so, r2);
            vstd::arithmetic::mul::lemma_mul_nonnegative(roll_weight(r2), b.0);
            vstd::arithmetic::mul::lemma_mul_nonnegative(roll_weight(r2), b.1);
        }
    }
}

/// Win-count conservation: the two tallies always account for every complete
/// game branch below the state, no branch lost, none double-counted.
pub proof fn lemma_win_conservation(pm: int, po: int, sm: int, so: int)
    ensures
        wins_from(pm, po, sm, so).0 + wins_from(pm, po, sm, so).1 == total_branches(
            pm,
            po,
            sm,
            so,
        ),
    decreases 42 - sm - so, 10int, 1int,
{
    if !(sm >= 21 || so >= 21 || sm < 0 || so < 0) {
        lemma_conservation_range(pm, po, sm, so, 9);
    }
}

proof fn lemma_conservation_range(pm: int, po: int, sm: int, so: int, r: int)
    ensures
        wins_range(pm, po, sm, so, r).0 + wins_range(pm, po, sm, so, r).1 == total_range(
            pm,
            po,
            sm,
            so,
            r,
        ),
    decreases 42 - sm - so, r, 1int,
{
    if !(sm >= 21 || so >= 21 || sm < 0 || so < 0 || r <= 2) {
        lemma_conservation_branch(pm, po, sm, so, r);
        lemma_conservation_range(pm, po, sm, so, r - 1);
        let b = wins_branch(pm, po, sm, so, r);
        vstd::arithmetic::mul::lemma_mul_is_distributive_add(roll_weight(r), b.0, b.1);
        assert(roll_weight(r) * (b.0 + b.1) == roll_weight(r) * total_branch(pm, po, sm, so, r));
    }
}

proof fn lemma_conservation_branch(pm: int, po: int, sm: int, so: int, r: int)
    ensures
        wins_branch(pm, po, sm, so, r).0 + wins_branch(pm, po, sm, so, r).1 == total_branch(
            pm,
            po,
            sm,
            so,
            r,
        ),
    decreases 42 - sm - so, r, 0int,
{
    if !(sm >= 21 || so >= 21 || sm < 0 || so < 0 || r <= 2) {
        let np = wrap10(pm + r);
        let ns = sm + np;
        if ns < 21 {
            assert(0 <= (pm + r - 1) % 10 < 10);
            lemma_win_conservation(po, np, so, ns);
        }
    }
}

/// The tally of a state described in fixed player-A/player-B orientation:
/// the mover-first recursion re-oriented so that A's count always comes
/// first.
pub open spec fn game_wins(pa: int, pb: int, sa: int, sb: int, a_moves: bool) -> (int, int) {
    if a_moves {
        wins_from(pa, pb, sa, sb)
    } else {
        let w = wins_from(pb, pa, sb, sa);
        (w.1, w.0)
    }
}

/// Relabelling the two players (swapping both their data and the turn) swaps
/// the tallies and nothing else: the computation does not depend on which
/// side is called "A".
pub proof fn lemma_perspective_swap(pa: int, pb: int, sa: int, sb: int, a_moves: bool)
    ensures
        game_wins(pb, pa, sb, sa, !a_moves) == (
            game_wins(pa, pb, sa, sb, a_moves).1,
            game_wins(pa, pb, sa, sb, a_moves).0,
        ),
{
}

/// Both components of a tally can be carried in a `u64`.
pub open spec fn fits(w: (int, int)) -> bool {
    w.0 <= u64::MAX && w.1 <= u64::MAX
}

/// A game state from the mover's perspective; whose turn it is needs no
/// field, because the mover always occupies the first slot.
#[derive(Clone, Copy)]
pub struct Universe {
    pub positions: (u8, u8),
    pub scores: (u8, u8),
}

impl Universe {
    pub open spec fn wf(self) -> bool {
        valid_state(
            self.positions.0 as int,
            self.positions.1 as int,
            self.scores.0 as int,
            self.scores.1 as int,
        )
    }

    /// The win tally this state is worth, mover first.
    pub open spec fn spec_wins(self) -> (int, int) {
        wins_from(
            self.positions.0 as int,
            self.positions.1 as int,
            self.scores.0 as int,
            self.scores.1 as int,
        )
    }
}

/// Packs a state into one integer; each component gets its own digit
/// position, so distinct states get distinct keys.
pub open spec fn spec_key(pm: int, po: int, sm: int, so: int) -> int {
    pm + 16 * (po + 16 * (sm + 32 * so))
}

proof fn lemma_key_inj(a: (int, int, int, int), b: (int, int, int, int))
    requires
        valid_state(a.0, a.1, a.2, a.3),
        valid_state(b.0, b.1, b.2, b.3),
        spec_key(a.0, a.1, a.2, a.3) == spec_key(b.0, b.1, b.2, b.3),
    ensures
        a == b,
{
    let ka = spec_key(a.0, a.1, a.2, a.3);
    vstd::arithmetic::div_mod::lemma_fundamental_div_mod_converse(
        ka,
        16,
        a.1 + 16 * (a.2 + 32 * a.3),
        a.0,
    );
    vstd::arithmetic::div_mod::lemma_fundamental_div_mod_converse(
        ka,
        16,
        b.1 + 16 * (b.2 + 32 * b.3),
        b.0,
    );
    let r1 = ka / 16;
    vstd::arithmetic::div_mod::lemma_fundamental_div_mod_converse(r1, 16, a.2 + 32 * a.3, a.1);
    vstd::arithmetic::div_mod::lemma_fundamental_div_mod_converse(r1, 16, b.2 + 32 * b.3, b.1);
    let r2 = r1 / 16;
    vstd::arithmetic::div_mod::lemma_fundamental_div_mod_converse(r2, 32, a.3, a.2);
    vstd::arithmetic::div_mod::lemma_fundamental_div_mod_converse(r2, 32, b.3, b.2);
}

/// Append-only memo table for game states; every entry is the exact win
/// tally of the state its key encodes.
pub struct ScoreMemo {
    table: HashMap<u64, (u64, u64)>,
}

impl ScoreMemo {
    pub closed spec fn view(self) -> Map<u64, (u64, u64)> {
        self.table@
    }

    /// Every cached entry is the true tally of its state.
    pub open spec fn wf(self) -> bool {
        forall|pm: int, po: int, sm: int, so: int|
            valid_state(pm, po, sm, so) && #[trigger] self.view().contains_key(
                spec_key(pm, po, sm, so) as u64,
            ) ==> {
                let w = self.view()[spec_key(pm, po, sm, so) as u64];
                (w.0 as int, w.1 as int) == wins_from(pm, po, sm, so)
            }
    }

    pub fn new() -> (r: ScoreMemo)
        ensures
            r.wf(),
            r.view() == Map::<u64, (u64, u64)>::empty(),
    {
        let table: HashMap<u64, (u64, u64)> = HashMap::new();
        ScoreMemo { table }
    }

    fn key(u: &Universe) -> (k: u64)
        requires
            u.wf(),
        ensures
            k as int == spec_key(
                u.positions.0 as int,
                u.positions.1 as int,
                u.scores.0 as int,
                u.scores.1 as int,
            ),
    {
        (u.positions.0 as u64) + 16 * ((u.positions.1 as u64) + 16 * ((u.scores.0 as u64) + 32 * (
        u.scores.1 as u64)))
    }

    /// Looks a state up; a hit is the state's exact tally.
    pub fn get(&self, u: &Universe) -> (r: Option<(u64, u64)>)
        requires
            u.wf(),
            self.wf(),
        ensures
            match r {
                Some(w) => (w.0 as int, w.1 as int) == u.spec_wins() && fits(u.spec_wins()),
                None => true,
            },
    {
        let k = Self::key(u);
        let ghost pm = u.positions.0 as int;
        let ghost po = u.positions.1 as int;
        let ghost sm = u.scores.0 as int;
        let ghost so = u.scores.1 as int;
        proof {
            assert(0 <= spec_key(pm, po, sm, so) <= u64::MAX);
            assert(k == spec_key(pm, po, sm, so) as u64);
        }
        match self.table.get(&k) {
            Some(w) => {
                proof {
                    assert(self.view().contains_key(spec_key(pm, po, sm, so) as u64));
                    assert(self.view()[k] == *w);
                }
                Some(*w)
            },
            None => None,
        }
    }

    /// Caches a state's tally. Entries are write-once: inserting a key that
    /// is already cached leaves the table exactly as it was, because both
    /// derivations of the value agree.
    pub fn insert(&mut self, u: Universe, w: (u64, u64))
        requires
            u.wf(),
            old(self).wf(),
            (w.0 as int, w.1 as int) == u.spec_wins(),
        ensures
            final(self).wf(),
            final(self).view().contains_key(
                spec_key(
                    u.positions.0 as int,
                    u.positions.1 as int,
                    u.scores.0 as int,
                    u.scores.1 as int,
                ) as u64,
            ),
            old(self).view().contains_key(
                spec_key(
                    u.positions.0 as int,
                    u.positions.1 as int,
                    u.scores.0 as int,
                    u.scores.1 as int,
                ) as u64,
            ) ==> final(self).view() == old(self).view(),
    {
        let k = Self::key(&u);
        let ghost prev = self.table@;
        self.table.insert(k, w);
        proof {
            let pm = u.positions.0 as int;
            let po = u.positions.1 as int;
            let sm = u.scores.0 as int;
            let so = u.scores.1 as int;
            assert(0 <= spec_key(pm, po, sm, so) <= u64::MAX);
            assert(k == spec_key(pm, po, sm, so) as u64);
            assert(self.table@ == prev.insert(k, w));
            assert forall|qm: int, qo: int, tm: int, to: int|
                valid_state(qm, qo, tm, to) && #[trigger] self.table@.contains_key(
                    spec_key(qm, qo, tm, to) as u64,
                ) implies {
                let v = self.table@[spec_key(qm, qo, tm, to) as u64];
                (v.0 as int, v.1 as int) == wins_from(qm, qo, tm, to)
            } by {
                assert(0 <= spec_key(qm, qo, tm, to) <= u64::MAX);
                if spec_key(qm, qo, tm, to) as u64 == k {
                    assert(spec_key(qm, qo, tm, to) == spec_key(pm, po, sm, so));
                    lemma_key_inj((qm, qo, tm, to), (pm, po, sm, so));
                    assert(self.table@[spec_key(qm, qo, tm, to) as u64] == w);
                } else {
                    assert(prev.contains_key(spec_key(qm, qo, tm, to) as u64));
                    assert(old(self).view().contains_key(spec_key(qm, qo, tm, to) as u64));
                    assert(self.table@[spec_key(qm, qo, tm, to) as u64] == prev[spec_key(
                        qm,
                        qo,
                        tm,
                        to,
                    ) as u64]);
                }
            }
            if prev.contains_key(k) {
                assert(old(self).view().contains_key(spec_key(pm, po, sm, so) as u64));
                assert((prev[k].0 as int, prev[k].1 as int) == wins_from(pm, po, sm, so));
                assert(prev[k] == w);
                assert(self.table@ =~= prev);
            }
        }
    }
}

/// The multiplicity of one die sum, as runtime data.
fn roll_weight_x(r: u8) -> (w: u8)
    requires
        3 <= r <= 9,
    ensures
        w as int == roll_weight(r as int),
        1 <= w <= 7,
{
    if r == 3 || r == 9 {
        1
    } else if r == 4 || r == 8 {
        3
    } else if r == 5 || r == 7 {
        6
    } else {
        7
    }
}

/// Advances a track position by a die sum, wrapping into 1..=10.
fn advance(p: u8, r: u8) -> (np: u8)
    requires
        1 <= p <= 10,
        3 <= r <= 9,
    ensures
        np as int == wrap10(p as int + r as int),
        1 <= np <= 10,
{
    let q = (p + r - 1) % 10 + 1;
    proof {
        assert(q as int == wrap10(p as int + r as int));
    }
    q
}

/// Win tally of `u`, memoized over `memo`; `None` exactly when the tally
/// overflows a `u64`.
fn wins_memo(memo: &mut ScoreMemo, u: Universe) -> (r: Option<(u64, u64)>)
    requires
        u.wf(),
        old(memo).wf(),
    ensures
        final(memo).wf(),
        match r {
            Some(w) => (w.0 as int, w.1 as int) == u.spec_wins(),
            None => !fits(u.spec_wins()),
        },
    decreases 42 - u.scores.0 - u.scores.1, 0int,
{
    let ghost pm = u.positions.0 as int;
    let ghost po = u.positions.1 as int;
    let ghost sm = u.scores.0 as int;
    let ghost so = u.scores.1 as int;
    if let Some(w) = memo.get(&u) {
        return Some(w);
    }
    let mut wa: u64 = 0;
    let mut wb: u64 = 0;
    let mut roll: u8 = 3;
    proof {
        assert(wins_range(pm, po, sm, so, 2) == (0int, 0int));
    }
    while roll <= 9
        invariant
            u.wf(),
            memo.wf(),
            pm == u.positions.0 as int,
            po == u.positions.1 as int,
            sm == u.scores.0 as int,
            so == u.scores.1 as int,
            3 <= roll <= 10,
            (wa as int, wb as int) == wins_range(pm, po, sm, so, roll - 1),
        decreases 10 - roll,
    {
        let np = advance(u.positions.0, roll);
        let weight = roll_weight_x(roll);
        let ghost b = wins_branch(pm, po, sm, so, roll as int);
        let wc: (u64, u64);
        if u.scores.0 >= 21 - np {
            // the mover reaches the threshold: this branch is all mover wins
            wc = (weight as u64, 0);
            proof {
                assert(b == (1int, 0int));
            }
        } else {
            let child = Universe {
                positions: (u.positions.1, np),
                scores: (u.scores.1, u.scores.0 + np),
            };
            proof {
                assert(child.wf());
            }
            match wins_memo(memo, child) {
                None => {
                    proof {
                        lemma_child_overflow(pm, po, sm, so, roll as int);
                    }
                    return None;
                },
                Some(cw) => {
                    let c0 = (weight as u64).checked_mul(cw.1);
                    let c1 = (weight as u64).checked_mul(cw.0);
                    proof {
                        assert(b == (cw.1 as int, cw.0 as int));
                    }
                    match (c0, c1) {
                        (Some(a), Some(bb)) => {
                            wc = (a, bb);
                        },
                        _ => {
                            proof {
                                lemma_contrib_overflow(pm, po, sm, so, roll as int);
                            }
                            return None;
                        },
                    }
                },
            }
        }
        proof {
            assert(wc.0 as int == roll_weight(roll as int) * b.0 && wc.1 as int
                == roll_weight(roll as int) * b.1) by {
                vstd::arithmetic::mul::lemma_mul_is_commutative(roll_weight(roll as int), b.0);
                vstd::arithmetic::mul::lemma_mul_is_commutative(roll_weight(roll as int), b.1);
            }
        }
        let na = wa.checked_add(wc.0);
        let nb = wb.checked_add(wc.1);
        match (na, nb) {
            (Some(a), Some(bb)) => {
                wa = a;
                wb = bb;
            },
            _ => {
                proof {
                    lemma_sum_overflow(pm, po, sm, so, roll as int);
                }
                return None;
            },
        }
        roll = roll + 1;
    }
    proof {
        assert((wa as int, wb as int) == wins_from(pm, po, sm, so));
    }
    memo.insert(u, (wa, wb));
    Some((wa, wb))
}

/// When a child state's tally overflows, so does the parent's.
proof fn lemma_child_overflow(pm: int, po: int, sm: int, so: int, r: int)
    requires
        valid_state(pm, po, sm, so),
        3 <= r <= 9,
        sm + wrap10(pm + r) < 21,
        !fits(wins_from(po, wrap10(pm + r), so, sm + wrap10(pm + r))),
    ensures
        !fits(wins_from(pm, po, sm, so)),
{
    let b = wins_branch(pm, po, sm, so, r);
    let child = wins_from(po, wrap10(pm + r), so, sm + wrap10(pm + r));
    assert(b == (child.1, child.0));
    lemma_weighted_branch_le_total(pm, po, sm, so, r);
}

/// When one weighted branch contribution overflows, the total does too.
proof fn lemma_contrib_overflow(pm: int, po: int, sm: int, so: int, r: int)
    requires
        valid_state(pm, po, sm, so),
        3 <= r <= 9,
        !(roll_weight(r) * wins_branch(pm, po, sm, so, r).0 <= u64::MAX && roll_weight(r)
            * wins_branch(pm, po, sm, so, r).1 <= u64::MAX),
    ensures
        !fits(wins_from(pm, po, sm, so)),
{
    lemma_weighted_branch_le_total(pm, po, sm, so, r);
}

/// A single weighted branch never exceeds the whole tally, and one branch
/// never exceeds its weighted self.
proof fn lemma_weighted_branch_le_total(pm: int, po: int, sm: int, so: int, r: int)
    requires
        valid_state(pm, po, sm, so),
        3 <= r <= 9,
    ensures
        wins_branch(pm, po, sm, so, r).0 <= roll_weight(r) * wins_branch(pm, po, sm, so, r).0,
        wins_branch(pm, po, sm, so, r).1 <= roll_weight(r) * wins_branch(pm, po, sm, so, r).1,
        roll_weight(r) * wins_branch(pm, po, sm, so, r).0 <= wins_from(pm, po, sm, so).0,
        roll_weight(r) * wins_branch(pm, po, sm, so, r).1 <= wins_from(pm, po, sm, so).1,
{
    let b = wins_branch(pm, po, sm, so, r);
    lemma_wins_branch_nonneg(pm, po, sm, so, r);
    vstd::arithmetic::mul::lemma_mul_inequality(1, roll_weight(r), b.0);
    vstd::arithmetic::mul::lemma_mul_inequality(1, roll_weight(r), b.1);
    lemma_wins_range_nonneg(pm, po, sm, so, r - 1);
    assert(wins_range(pm, po, sm, so, r).0 >= roll_weight(r) * b.0);
    assert(wins_range(pm, po, sm, so, r).1 >= roll_weight(r) * b.1);
    lemma_wins_range_mono(pm, po, sm, so, r, 9);
}

/// When the running sum overflows, the total overflows.
proof fn lemma_sum_overflow(pm: int, po: int, sm: int, so: int, r: int)
    requires
        valid_state(pm, po, sm, so),
        3 <= r <= 9,
        !(wins_range(pm, po, sm, so, r).0 <= u64::MAX && wins_range(pm, po, sm, so, r).1
            <= u64::MAX),
    ensures
        !fits(wins_from(pm, po, sm, so)),
{
    lemma_wins_range_mono(pm, po, sm, so, r, 9);
}

/// Win tallies from a fresh start: both players at their starting positions,
/// both scores zero, the first-listed player about to move. `None` exactly
/// when a tally overflows a `u64`.
pub fn count_wins(positions: (u8, u8)) -> (r: Option<(u64, u64)>)
    requires
        1 <= positions.0 <= 10,
        1 <= positions.1 <= 10,
    ensures
        match r {
            Some(w) => (w.0 as int, w.1 as int) == wins_from(
                positions.0 as int,
                positions.1 as int,
                0,
                0,
            ),
            None => !fits(wins_from(positions.0 as int, positions.1 as int, 0, 0)),
        },
{
    let mut memo = ScoreMemo::new();
    let u = Universe { positions, scores: (0, 0) };
    wins_memo(&mut memo, u)
}

/// The puzzle answer for the branching game: the larger of the two win
/// tallies.
pub fn part_2(positions: (u8, u8)) -> (r: Option<u64>)
    requires
        1 <= positions.0 <= 10,
        1 <= positions.1 <= 10,
    ensures
        ({
            let w = wins_from(positions.0 as int, positions.1 as int, 0, 0);
            match r {
                Some(m) => m as int == (if w.0 >= w.1 {
                    w.0
                } else {
                    w.1
                }),
                None => !fits(w),
            }
        }),
{
    match count_wins(positions) {
        Some((a, b)) => if a >= b {
            Some(a)
        } else {
            Some(b)
        },
        None => None,
    }
}

/// A die that always rolls 1, 2, ..., 100, 1, 2, ... and counts its rolls.
#[derive(Default, Clone, Copy)]
pub struct DeterministicDie {
    pub value: u32,
    pub rolls: u32,
}

impl DeterministicDie {
    /// Rolls the die: returns the next value in the cycle 1..=100.
    pub fn roll(&mut self) -> (r: u32)
        requires
            old(self).value < 100,
            old(self).rolls < u32::MAX,
        ensures
            r == old(self).value + 1,
            final(self).value as int == (old(self).value + 1) % 100,
            final(self).rolls == old(self).rolls + 1,
            1 <= r <= 100,
            final(self).value < 100,
    {
        let res = self.value + 1;
        self.value = res % 100;
        self.rolls = self.rolls + 1;
        res
    }
}

/// Outcome of the deterministic-die game: the losing score times the number
/// of rolls made, played to a threshold of 1000 from the given state.
pub open spec fn det_game(
    p1: int,
    p2: int,
    s1: int,
    s2: int,
    dv: int,
    rolls: int,
    p1_turn: bool,
) -> int
    decreases 2020 - s1 - s2,
{
    if s1 >= 1000 || s2 >= 1000 || s1 < 0 || s2 < 0 {
        (if s1 <= s2 {
            s1
        } else {
            s2
        }) * rolls
    } else {
        let r1 = dv + 1;
        let r2 = (r1 % 100) + 1;
        let r3 = (r2 % 100) + 1;
        let sum = r1 + r2 + r3;
        if p1_turn {
            let np = wrap10(p1 + sum);
            det_game(np, p2, s1 + np, s2, r3 % 100, rolls + 3, false)
        } else {
            let np = wrap10(p2 + sum);
            det_game(p1, np, s1, s2 + np, r3 % 100, rolls + 3, true)
        }
    }
}

/// Advances a position by a three-roll sum, wrapping into 1..=10.
fn advance_far(p: u32, sum: u32) -> (np: u32)
    requires
        1 <= p <= 10,
        3 <= sum <= 300,
    ensures
        np as int == wrap10(p as int + sum as int),
        1 <= np <= 10,
{
    (p + sum - 1) % 10 + 1
}

/// Plays the deterministic-die game from the two starting positions and
/// returns the losing score multiplied by the number of die rolls.
pub fn part_1(positions: (u32, u32)) -> (r: u32)
    requires
        1 <= positions.0 <= 10,
        1 <= positions.1 <= 10,
    ensures
        r as int == det_game(positions.0 as int, positions.1 as int, 0, 0, 0, 0, true),
{
    let mut p1 = positions.0;
    let mut p2 = positions.1;
    let mut s1: u32 = 0;
    let mut s2: u32 = 0;
    let mut p1_turn: bool = true;
    let mut die = DeterministicDie { value: 0, rolls: 0 };
    while s1 < 1000 && s2 < 1000
        invariant
            1 <= p1 <= 10,
            1 <= p2 <= 10,
            s1 < 1010,
            s2 < 1010,
            s1 < 1000 || s2 < 1000,
            die.value < 100,
            die.rolls <= 3 * (s1 + s2 + 1),
            det_game(p1 as int, p2 as int, s1 as int, s2 as int, die.value as int, die.rolls as int, p1_turn)
                == det_game(positions.0 as int, positions.1 as int, 0, 0, 0, 0, true),
        decreases 2020 - s1 - s2,
    {
        let r1 = die.roll();
        let r2 = die.roll();
        let r3 = die.roll();
        let sum = r1 + r2 + r3;
        if p1_turn {
            let np = advance_far(p1, sum);
            p1 = np;
            s1 = s1 + np;
        } else {
            let np = advance_far(p2, sum);
            p2 = np;
            s2 = s2 + np;
        }
        p1_turn = !p1_turn;
    }
    let losing = if s1 <= s2 {
        s1
    } else {
        s2
    };
    proof {
        assert(losing < 1000);
        assert(die.rolls <= 3 * (s1 + s2 + 1) <= 3 * (1010 + 1010 + 1));
        assert(losing as int * die.rolls as int <= 1000 * 6063) by (nonlinear_arith)
            requires
                losing < 1000,
                die.rolls <= 6063,
        ;
    }
    losing * die.rolls
}

} // verus!
