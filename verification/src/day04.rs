//! Bingo: five-by-five boards marked as numbers are drawn.

use vstd::prelude::*;

verus! {

/// A five-by-five board, flattened row-major, with per-cell marks.
pub struct Board {
    pub entries: Vec<u64>,
    pub marked: Vec<bool>,
}

/// The first cell holding `n`, or 25 when absent.
pub open spec fn find_cell(entries: Seq<u64>, n: u64, i: int) -> int
    decreases 25 - i,
{
    if i < 0 || i >= 25 {
        25
    } else if entries[i] == n {
        i
    } else {
        find_cell(entries, n, i + 1)
    }
}

/// The marks after drawing `n`: the first cell holding `n` is set.
pub open spec fn marks_after(entries: Seq<u64>, marked: Seq<bool>, n: u64) -> Seq<bool> {
    if find_cell(entries, n, 0) < 25 {
        marked.update(find_cell(entries, n, 0), true)
    } else {
        marked
    }
}

/// A full row or a full column of marks.
pub open spec fn has_won(m: Seq<bool>) -> bool {
    ||| (m[0] && m[1] && m[2] && m[3] && m[4])
    ||| (m[5] && m[6] && m[7] && m[8] && m[9])
    ||| (m[10] && m[11] && m[12] && m[13] && m[14])
    ||| (m[15] && m[16] && m[17] && m[18] && m[19])
    ||| (m[20] && m[21] && m[22] && m[23] && m[24])
    ||| (m[0] && m[5] && m[10] && m[15] && m[20])
    ||| (m[1] && m[6] && m[11] && m[16] && m[21])
    ||| (m[2] && m[7] && m[12] && m[17] && m[22])
    ||| (m[3] && m[8] && m[13] && m[18] && m[23])
    ||| (m[4] && m[9] && m[14] && m[19] && m[24])
}

/// Sum of the first `k` unmarked cells.
pub open spec fn unmarked_sum(entries: Seq<u64>, marked: Seq<bool>, k: int) -> int
    decreases k,
{
    if k <= 0 {
        0
    } else {
        unmarked_sum(entries, marked, k - 1) + (if marked[k - 1] {
            0
        } else {
            entries[k - 1] as int
        })
    }
}

impl Board {
    pub open spec fn wf(self) -> bool {
        self.entries@.len() == 25 && self.marked@.len() == 25
    }

    /// Marks the first cell holding `number` and reports whether the board
    /// now has a complete row or column.
    pub fn mark(&mut self, number: u64) -> (r: bool)
        requires
            old(self).wf(),
        ensures
            final(self).wf(),
            final(self).entries@ == old(self).entries@,
            final(self).marked@ == marks_after(old(self).entries@, old(self).marked@, number),
            r == has_won(final(self).marked@),
    {
        let ghost e = self.entries@;
        let ghost m0 = self.marked@;
        let mut i: usize = 0;
        let mut done = false;
        while i < 25
            invariant
                0 <= i <= 25,
                self.wf(),
                self.entries@ == e,
                !done ==> self.marked@ == m0 && find_cell(e, number, 0) == find_cell(
                    e,
                    number,
                    i as int,
                ),
                done ==> find_cell(e, number, 0) < 25 && self.marked@ == m0.update(
                    find_cell(e, number, 0),
                    true,
                ),
            decreases 25 - i,
        {
            if !done && self.entries[i] == number {
                self.marked[i] = true;
                done = true;
                proof {
                    assert(find_cell(e, number, i as int) == i);
                }
            }
            i = i + 1;
        }
        proof {
            if !done {
                assert(find_cell(e, number, 25) == 25);
            }
        }
        let m = &self.marked;
        (m[0] && m[1] && m[2] && m[3] && m[4]) || (m[5] && m[6] && m[7] && m[8] && m[9]) || (m[10]
            && m[11] && m[12] && m[13] && m[14]) || (m[15] && m[16] && m[17] && m[18] && m[19]) || (
        m[20] && m[21] && m[22] && m[23] && m[24]) || (m[0] && m[5] && m[10] && m[15] && m[20]) || (
        m[1] && m[6] && m[11] && m[16] && m[21]) || (m[2] && m[7] && m[12] && m[17] && m[22]) || (
        m[3] && m[8] && m[13] && m[18] && m[23]) || (m[4] && m[9] && m[14] && m[19] && m[24])
    }

    /// Sum of all unmarked cells.
    pub fn score(&self) -> (r: u64)
        requires
            self.wf(),
            unmarked_sum(self.entries@, self.marked@, 25) <= u64::MAX,
        ensures
            r as int == unmarked_sum(self.entries@, self.marked@, 25),
    {
        let mut total: u64 = 0;
        let mut i: usize = 0;
        while i < 25
            invariant
                0 <= i <= 25,
                self.wf(),
                unmarked_sum(self.entries@, self.marked@, 25) <= u64::MAX,
                total as int == unmarked_sum(self.entries@, self.marked@, i as int),
            decreases 25 - i,
        {
            proof {
                lemma_unmarked_prefix(self.entries@, self.marked@, i + 1);
            }
            if !self.marked[i] {
                total = total + self.entries[i];
            }
            i = i + 1;
        }
        total
    }
}

proof fn lemma_unmarked_nonneg(entries: Seq<u64>, marked: Seq<bool>, k: int)
    ensures
        unmarked_sum(entries, marked, k) >= 0,
    decreases k,
{
    if k > 0 {
        lemma_unmarked_nonneg(entries, marked, k - 1);
    }
}

proof fn lemma_unmarked_prefix(entries: Seq<u64>, marked: Seq<bool>, k: int)
    requires
        0 <= k <= 25,
    ensures
        unmarked_sum(entries, marked, k) <= unmarked_sum(entries, marked, 25),
        unmarked_sum(entries, marked, k) >= 0,
    decreases 25 - k,
{
    lemma_unmarked_nonneg(entries, marked, k);
    if k < 25 {
        lemma_unmarked_prefix(entries, marked, k + 1);
    }
}

/// The board's marks after the first `k` draws.
pub open spec fn marks_after_draws(entries: Seq<u64>, numbers: Seq<u64>, k: int) -> Seq<bool>
    decreases k,
{
    if k <= 0 {
        Seq::new(25, |i: int| false)
    } else {
        marks_after(entries, marks_after_draws(entries, numbers, k - 1), numbers[k - 1])
    }
}

/// Board `j` completes a row or column once the first `k + 1` draws are made.
pub open spec fn wins_at(boards: Seq<Seq<u64>>, numbers: Seq<u64>, j: int, k: int) -> bool {
    has_won(marks_after_draws(boards[j], numbers, k + 1))
}

/// Plays the draws in order against all boards; the first board to complete
/// a line — checked board by board within each draw — wins, and the answer
/// is the draw times the board's unmarked sum at that moment.
pub fn part_1(numbers: &Vec<u64>, boards: Vec<Board>) -> (r: Option<u64>)
    requires
        forall|j: int| 0 <= j < boards@.len() ==> (#[trigger] boards@[j]).wf(),
        forall|j: int, i: int|
            0 <= j < boards@.len() && 0 <= i < 25 ==> !(#[trigger] boards@[j].marked@[i]),
    ensures
        match r {
            Some(v) => exists|k: int, j: int|
                #![trigger numbers@[k], entry_views(boards@)[j]]
                {
                    let es = entry_views(boards@);
                    &&& 0 <= k < numbers@.len()
                    &&& 0 <= j < es.len()
                    &&& wins_at(es, numbers@, j, k)
                    &&& (forall|k2: int, j2: int|
                        0 <= k2 < numbers@.len() && 0 <= j2 < es.len() && (k2 < k || (k2 == k && j2
                            < j)) ==> !(#[trigger] wins_at(es, numbers@, j2, k2)))
                    &&& v as int == numbers@[k] * unmarked_sum(
                        es[j],
                        marks_after_draws(es[j], numbers@, k + 1),
                        25,
                    )
                },
            None => true,
        },
{
    let ghost orig = boards@;
    let mut bs = boards;
    let ghost es = entry_views(orig);
    proof {
        assert forall|j: int| 0 <= j < bs@.len() implies (#[trigger] bs@[j]).marked@
            == marks_after_draws(es[j], numbers@, 0) by {
            assert(bs@[j].marked@ =~= Seq::new(25, |i: int| false));
        }
    }
    let mut k: usize = 0;
    while k < numbers.len()
        invariant
            0 <= k <= numbers@.len(),
            es == entry_views(orig),
            orig == boards@,
            es.len() == bs@.len(),
            forall|j: int| 0 <= j < bs@.len() ==> (#[trigger] bs@[j]).wf(),
            forall|j: int|
                0 <= j < bs@.len() ==> (#[trigger] bs@[j]).entries@ == es[j],
            forall|j: int|
                0 <= j < bs@.len() ==> (#[trigger] bs@[j]).marked@ == marks_after_draws(
                    es[j],
                    numbers@,
                    k as int,
                ),
            forall|k2: int, j2: int|
                0 <= k2 < k && 0 <= j2 < es.len() ==> !(#[trigger] wins_at(es, numbers@, j2, k2)),
        decreases numbers@.len() - k,
    {
        let n = numbers[k];
        let mut j: usize = 0;
        while j < bs.len()
            invariant
                0 <= j <= bs@.len(),
                0 <= k < numbers@.len(),
                es == entry_views(orig),
                orig == boards@,
                n == numbers@[k as int],
                es.len() == bs@.len(),
                forall|j2: int| 0 <= j2 < bs@.len() ==> (#[trigger] bs@[j2]).wf(),
                forall|j2: int|
                    0 <= j2 < bs@.len() ==> (#[trigger] bs@[j2]).entries@ == es[j2],
                forall|j2: int|
                    j <= j2 < bs@.len() ==> (#[trigger] bs@[j2]).marked@
                        == marks_after_draws(es[j2], numbers@, k as int),
                forall|j2: int|
                    0 <= j2 < j ==> (#[trigger] bs@[j2]).marked@ == marks_after_draws(
                        es[j2],
                        numbers@,
                        k as int + 1,
                    ),
                forall|k2: int, j2: int|
                    0 <= k2 < k && 0 <= j2 < es.len() ==> !(#[trigger] wins_at(es, numbers@, j2, k2)),
                forall|j2: int|
                    0 <= j2 < j ==> !(#[trigger] wins_at(es, numbers@, j2, k as int)),
            decreases bs@.len() - j,
        {
            let ghost pre = bs@;
            let mut b = bs.remove(j);
            let won = b.mark(n);
            let score = if won {
                b.score_checked()
            } else {
                None
            };
            bs.insert(j, b);
            proof {
                assert(bs@ =~= pre.update(j as int, b));
                assert forall|j2: int| 0 <= j2 < bs@.len() && j2 != j implies (
                #[trigger] bs@[j2]) == pre[j2] by {}
                assert(bs@[j as int].marked@ == marks_after_draws(
                    es[j as int],
                    numbers@,
                    k as int + 1,
                ));
            }
            if won {
                let ghost kk = k as int;
                let ghost jj = j as int;
                proof {
                    assert(wins_at(es, numbers@, jj, kk));
                }
                match score {
                    Some(s) => {
                        proof {
                            assert(s as int == unmarked_sum(
                                es[j as int],
                                marks_after_draws(es[j as int], numbers@, k as int + 1),
                                25,
                            ));
                        }
                        match n.checked_mul(s) {
                            Some(v) => {
                                proof {
                                    assert(entry_views(orig) =~= es);
                                    assert(entry_views(orig)[jj] == es[jj]);
                                    assert(numbers@[kk] == n);
                                    assert(v as int == numbers@[kk] * unmarked_sum(
                                        es[jj],
                                        marks_after_draws(es[jj], numbers@, kk + 1),
                                        25,
                                    ));
                                }
                                return Some(v);
                            },
                            None => {
                                return None;
                            },
                        }
                    },
                    None => {
                        return None;
                    },
                }
            }
            j = j + 1;
        }
        k = k + 1;
    }
    None
}

/// The boards' number grids.
pub open spec fn entry_views(boards: Seq<Board>) -> Seq<Seq<u64>> {
    boards.map_values(|b: Board| b.entries@)
}

impl Board {
    /// Sum of all unmarked cells, `None` when it cannot be carried in a
    /// `u64`.
    pub fn score_checked(&self) -> (r: Option<u64>)
        requires
            self.wf(),
        ensures
            match r {
                Some(s) => s as int == unmarked_sum(self.entries@, self.marked@, 25),
                None => unmarked_sum(self.entries@, self.marked@, 25) > u64::MAX,
            },
    {
        let mut total: u64 = 0;
        let mut i: usize = 0;
        while i < 25
            invariant
                0 <= i <= 25,
                self.wf(),
                total as int == unmarked_sum(self.entries@, self.marked@, i as int),
            decreases 25 - i,
        {
            if !self.marked[i] {
                match total.checked_add(self.entries[i]) {
                    Some(t) => {
                        total = t;
                    },
                    None => {
                        proof {
                            lemma_unmarked_mono(self.entries@, self.marked@, i + 1, 25);
                        }
                        return None;
                    },
                }
            }
            i = i + 1;
        }
        Some(total)
    }
}

proof fn lemma_unmarked_mono(entries: Seq<u64>, marked: Seq<bool>, k1: int, k2: int)
    requires
        0 <= k1 <= k2,
    ensures
        unmarked_sum(entries, marked, k1) <= unmarked_sum(entries, marked, k2),
    decreases k2 - k1,
{
    if k1 < k2 {
        lemma_unmarked_mono(entries, marked, k1, k2 - 1);
    }
}

} // verus!
