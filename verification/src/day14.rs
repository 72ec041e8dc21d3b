//! Polymer growth tracked as pair counts over a 26-letter alphabet.
//!
//! A state holds, for every ordered letter pair, how many times it occurs in
//! the polymer, plus a per-letter count. One step replaces every pair `ab`
//! with `ar` and `rb` where `r` is the rule for `ab`, and adds the inserted
//! letters to the letter counts.

use vstd::prelude::*;

verus! {

/// Contribution to pair slot `j` from the first `k` pair slots: each pair
/// `ab` with count `n` and rule letter `r` feeds `n` into `ar` and `rb`.
pub open spec fn pair_contrib(pairs: Seq<u64>, rules: Seq<u8>, j: int, k: int) -> int
    decreases k,
{
    if k <= 0 {
        0
    } else {
        let ab = k - 1;
        let a = ab / 26;
        let b = ab % 26;
        let r = rules[ab] as int;
        pair_contrib(pairs, rules, j, ab) + (if a * 26 + r == j {
            pairs[ab] as int
        } else {
            0
        }) + (if r * 26 + b == j {
            pairs[ab] as int
        } else {
            0
        })
    }
}

/// The pair counts after one insertion step.
pub open spec fn step_pairs(pairs: Seq<u64>, rules: Seq<u8>) -> Seq<int> {
    Seq::new(676, |j: int| pair_contrib(pairs, rules, j, 676))
}

/// Letters gained in one step: every pair `ab` inserts its rule letter.
pub open spec fn letter_gain(pairs: Seq<u64>, rules: Seq<u8>, l: int, k: int) -> int
    decreases k,
{
    if k <= 0 {
        0
    } else {
        letter_gain(pairs, rules, l, k - 1) + (if rules[k - 1] as int == l {
            pairs[k - 1] as int
        } else {
            0
        })
    }
}

pub open spec fn step_letters(pairs: Seq<u64>, letters: Seq<u64>, rules: Seq<u8>) -> Seq<int> {
    Seq::new(26, |l: int| letters[l] + letter_gain(pairs, rules, l, 676))
}

/// Every count of the next state fits the machine word.
pub open spec fn step_fits(pairs: Seq<u64>, letters: Seq<u64>, rules: Seq<u8>) -> bool {
    (forall|j: int| 0 <= j < 676 ==> #[trigger] step_pairs(pairs, rules)[j] <= u64::MAX) && (forall|
        l: int,
    | 0 <= l < 26 ==> #[trigger] step_letters(pairs, letters, rules)[l] <= u64::MAX)
}

pub open spec fn wf_state(pairs: Seq<u64>, letters: Seq<u64>, rules: Seq<u8>) -> bool {
    pairs.len() == 676 && letters.len() == 26 && rules.len() == 676 && (forall|k: int|
        0 <= k < 676 ==> (#[trigger] rules[k]) < 26)
}

proof fn lemma_contrib_nonneg(pairs: Seq<u64>, rules: Seq<u8>, j: int, k: int)
    ensures
        pair_contrib(pairs, rules, j, k) >= 0,
    decreases k,
{
    if k > 0 {
        lemma_contrib_nonneg(pairs, rules, j, k - 1);
    }
}

proof fn lemma_contrib_mono(pairs: Seq<u64>, rules: Seq<u8>, j: int, k1: int, k2: int)
    requires
        0 <= k1 <= k2,
    ensures
        pair_contrib(pairs, rules, j, k1) <= pair_contrib(pairs, rules, j, k2),
        pair_contrib(pairs, rules, j, k1) >= 0,
    decreases k2 - k1,
{
    lemma_contrib_nonneg(pairs, rules, j, k1);
    if k1 < k2 {
        lemma_contrib_mono(pairs, rules, j, k1, k2 - 1);
    }
}

proof fn lemma_gain_nonneg(pairs: Seq<u64>, rules: Seq<u8>, l: int, k: int)
    ensures
        letter_gain(pairs, rules, l, k) >= 0,
    decreases k,
{
    if k > 0 {
        lemma_gain_nonneg(pairs, rules, l, k - 1);
    }
}

proof fn lemma_gain_mono(pairs: Seq<u64>, rules: Seq<u8>, l: int, k1: int, k2: int)
    requires
        0 <= k1 <= k2,
    ensures
        letter_gain(pairs, rules, l, k1) <= letter_gain(pairs, rules, l, k2),
        letter_gain(pairs, rules, l, k1) >= 0,
    decreases k2 - k1,
{
    lemma_gain_nonneg(pairs, rules, l, k1);
    if k1 < k2 {
        lemma_gain_mono(pairs, rules, l, k1, k2 - 1);
    }
}

/// Runs one insertion step; `false` exactly when a count of the next state
/// does not fit, leaving the state unspecified.
fn step(pairs: &mut Vec<u64>, letters: &mut Vec<u64>, rules: &Vec<u8>) -> (ok: bool)
    requires
        wf_state(old(pairs)@, old(letters)@, rules@),
    ensures
        wf_state(final(pairs)@, final(letters)@, rules@),
        ok == step_fits(old(pairs)@, old(letters)@, rules@),
        ok ==> (forall|j: int|
            0 <= j < 676 ==> (#[trigger] final(pairs)@[j]) as int == step_pairs(
                old(pairs)@,
                rules@,
            )[j]) && (forall|l: int|
            0 <= l < 26 ==> (#[trigger] final(letters)@[l]) as int == step_letters(
                old(pairs)@,
                old(letters)@,
                rules@,
            )[l]),
{
    let ghost p0 = pairs@;
    let ghost l0 = letters@;
    let mut next: Vec<u64> = Vec::new();
    let mut i: usize = 0;
    while i < 676
        invariant
            0 <= i <= 676,
            next@.len() == i,
            forall|j: int| 0 <= j < i ==> (#[trigger] next@[j]) == 0,
        decreases 676 - i,
    {
        next.push(0);
        i = i + 1;
    }
    let mut k: usize = 0;
    while k < 676
        invariant
            0 <= k <= 676,
            wf_state(p0, l0, rules@),
            p0 == old(pairs)@,
            l0 == old(letters)@,
            pairs@ == p0,
            letters@.len() == 26,
            next@.len() == 676,
            forall|j: int|
                0 <= j < 676 ==> (#[trigger] next@[j]) as int == pair_contrib(
                    p0,
                    rules@,
                    j,
                    k as int,
                ),
            forall|l: int|
                0 <= l < 26 ==> (#[trigger] letters@[l]) as int == l0[l] + letter_gain(
                    p0,
                    rules@,
                    l,
                    k as int,
                ),
        decreases 676 - k,
    {
        let n = pairs[k];
        let r = rules[k] as usize;
        let a = k / 26;
        let b = k % 26;
        let t1 = a * 26 + r;
        let t2 = r * 26 + b;
        proof {
            assert(a < 26 && b < 26 && r < 26);
            assert(t1 < 676 && t2 < 676);
        }
        let ghost mid = next@;
        let v1 = next[t1];
        match v1.checked_add(n) {
            Some(v) => {
                next[t1] = v;
            },
            None => {
                proof {
                    lemma_contrib_mono(p0, rules@, t1 as int, k as int + 1, 676);
                    assert(pair_contrib(p0, rules@, t1 as int, k as int + 1) >= mid[t1 as int]
                        + p0[k as int]);
                    assert(step_pairs(p0, rules@)[t1 as int] > u64::MAX);
                    assert(!step_fits(p0, l0, rules@));
                }
                return false;
            },
        }
        let ghost mid1 = next@;
        let v2 = next[t2];
        match v2.checked_add(n) {
            Some(v) => {
                next[t2] = v;
            },
            None => {
                proof {
                    lemma_contrib_mono(p0, rules@, t2 as int, k as int + 1, 676);
                    if t1 == t2 {
                        assert(mid1[t2 as int] as int == mid[t2 as int] + p0[k as int]);
                        assert(pair_contrib(p0, rules@, t2 as int, k as int + 1) == mid[t2 as int]
                            + p0[k as int] + p0[k as int]);
                    } else {
                        assert(mid1[t2 as int] == mid[t2 as int]);
                        assert(pair_contrib(p0, rules@, t2 as int, k as int + 1) >= mid[t2 as int]
                            + p0[k as int]);
                    }
                    assert(step_pairs(p0, rules@)[t2 as int] > u64::MAX);
                    assert(!step_fits(p0, l0, rules@));
                }
                return false;
            },
        }
        let lv = letters[r];
        match lv.checked_add(n) {
            Some(v) => {
                letters[r] = v;
            },
            None => {
                proof {
                    lemma_gain_mono(p0, rules@, r as int, k as int + 1, 676);
                    assert(letter_gain(p0, rules@, r as int, k as int + 1) == letter_gain(
                        p0,
                        rules@,
                        r as int,
                        k as int,
                    ) + p0[k as int]);
                    assert(step_letters(p0, l0, rules@)[r as int] > u64::MAX);
                    assert(!step_fits(p0, l0, rules@));
                }
                return false;
            },
        }
        proof {
            assert forall|j: int|
                0 <= j < 676 implies (#[trigger] next@[j]) as int == pair_contrib(
                p0,
                rules@,
                j,
                k as int + 1,
            ) by {
                assert(pair_contrib(p0, rules@, j, k as int + 1) == pair_contrib(
                    p0,
                    rules@,
                    j,
                    k as int,
                ) + (if (k as int) / 26 * 26 + rules@[k as int] as int == j {
                    p0[k as int] as int
                } else {
                    0
                }) + (if rules@[k as int] as int * 26 + (k as int) % 26 == j {
                    p0[k as int] as int
                } else {
                    0
                }));
            }
        }
        k = k + 1;
    }
    let mut j: usize = 0;
    while j < 676
        invariant
            0 <= j <= 676,
            pairs@.len() == 676,
            next@.len() == 676,
            forall|i2: int|
                0 <= i2 < 676 ==> (#[trigger] next@[i2]) as int == pair_contrib(p0, rules@, i2, 676),
            forall|i2: int| 0 <= i2 < j ==> (#[trigger] pairs@[i2]) == next@[i2],
            forall|i2: int| j <= i2 < 676 ==> (#[trigger] pairs@[i2]) == p0[i2],
        decreases 676 - j,
    {
        let v = next[j];
        pairs[j] = v;
        j = j + 1;
    }
    proof {
        assert forall|j2: int| 0 <= j2 < 676 implies #[trigger] step_pairs(p0, rules@)[j2]
            <= u64::MAX by {
            assert(step_pairs(p0, rules@)[j2] == pairs@[j2] as int);
        }
        assert forall|l: int| 0 <= l < 26 implies #[trigger] step_letters(p0, l0, rules@)[l]
            <= u64::MAX by {
            assert(step_letters(p0, l0, rules@)[l] == letters@[l] as int);
        }
    }
    true
}

/// The next state's counts, carried back into machine words.
pub open spec fn next_pairs(pairs: Seq<u64>, rules: Seq<u8>) -> Seq<u64> {
    Seq::new(676, |j: int| step_pairs(pairs, rules)[j] as u64)
}

pub open spec fn next_letters(pairs: Seq<u64>, letters: Seq<u64>, rules: Seq<u8>) -> Seq<u64> {
    Seq::new(26, |l: int| step_letters(pairs, letters, rules)[l] as u64)
}

/// Every intermediate state over `n` steps fits the machine word.
pub open spec fn all_fits(pairs: Seq<u64>, letters: Seq<u64>, rules: Seq<u8>, n: int) -> bool
    decreases n,
{
    if n <= 0 {
        true
    } else {
        step_fits(pairs, letters, rules) && all_fits(
            next_pairs(pairs, rules),
            next_letters(pairs, letters, rules),
            rules,
            n - 1,
        )
    }
}

/// The letter counts after `n` insertion steps.
pub open spec fn letters_after(pairs: Seq<u64>, letters: Seq<u64>, rules: Seq<u8>, n: int) -> Seq<
    u64,
>
    decreases n,
{
    if n <= 0 {
        letters
    } else {
        letters_after(
            next_pairs(pairs, rules),
            next_letters(pairs, letters, rules),
            rules,
            n - 1,
        )
    }
}

pub open spec fn max_upto(s: Seq<u64>, k: int) -> int
    decreases k,
{
    if k <= 1 {
        s[0] as int
    } else if s[k - 1] as int > max_upto(s, k - 1) {
        s[k - 1] as int
    } else {
        max_upto(s, k - 1)
    }
}

/// Smallest count among the letters that occur at all; zero when none do.
pub open spec fn min_pos_upto(s: Seq<u64>, k: int) -> int
    decreases k,
{
    if k <= 0 {
        0
    } else {
        let rest = min_pos_upto(s, k - 1);
        if s[k - 1] > 0 && (rest == 0 || (s[k - 1] as int) < rest) {
            s[k - 1] as int
        } else {
            rest
        }
    }
}

/// Runs `n` insertion steps and returns the difference between the most and
/// least common letter. `None` exactly when an intermediate count overflows.
pub fn solve(pairs: Vec<u64>, letters: Vec<u64>, rules: &Vec<u8>, n: usize) -> (r: Option<u64>)
    requires
        wf_state(pairs@, letters@, rules@),
    ensures
        match r {
            Some(v) => all_fits(pairs@, letters@, rules@, n as int) && v as int == max_upto(
                letters_after(pairs@, letters@, rules@, n as int),
                26,
            ) - min_pos_upto(letters_after(pairs@, letters@, rules@, n as int), 26),
            None => !all_fits(pairs@, letters@, rules@, n as int),
        },
{
    let ghost p0 = pairs@;
    let ghost l0 = letters@;
    let mut ps = pairs;
    let mut ls = letters;
    let mut k: usize = 0;
    while k < n
        invariant
            0 <= k <= n,
            p0 == pairs@,
            l0 == letters@,
            wf_state(ps@, ls@, rules@),
            all_fits(p0, l0, rules@, n as int) == all_fits(ps@, ls@, rules@, n - k),
            letters_after(p0, l0, rules@, n as int) == letters_after(ps@, ls@, rules@, n - k),
        decreases n - k,
    {
        let ghost pc = ps@;
        let ghost lc = ls@;
        let ok = step(&mut ps, &mut ls, rules);
        if !ok {
            proof {
                assert(!all_fits(pc, lc, rules@, n - k));
            }
            return None;
        }
        proof {
            assert(ps@ =~= next_pairs(pc, rules@));
            assert(ls@ =~= next_letters(pc, lc, rules@));
            assert(all_fits(pc, lc, rules@, n - k) == (step_fits(pc, lc, rules@) && all_fits(
                ps@,
                ls@,
                rules@,
                n - k - 1,
            )));
            assert(letters_after(pc, lc, rules@, n - k) == letters_after(
                ps@,
                ls@,
                rules@,
                n - k - 1,
            ));
        }
        k = k + 1;
    }
    proof {
        assert(all_fits(ps@, ls@, rules@, 0));
        assert(letters_after(ps@, ls@, rules@, 0) == ls@);
    }
    let ghost lfin = ls@;
    proof {
        assert(min_pos_upto(ls@, 0) == 0);
    }
    let mut mx = ls[0];
    let mut mn: u64 = ls[0];
    let mut l: usize = 1;
    while l < 26
        invariant
            1 <= l <= 26,
            ls@.len() == 26,
            lfin == ls@,
            lfin == letters_after(pairs@, letters@, rules@, n as int),
            mx as int == max_upto(ls@, l as int),
            mn as int == min_pos_upto(ls@, l as int),
        decreases 26 - l,
    {
        let v = ls[l];
        if v > mx {
            mx = v;
        }
        if v > 0 && (mn == 0 || v < mn) {
            mn = v;
        }
        l = l + 1;
    }
    proof {
        lemma_min_le_max(ls@, 26);
    }
    Some(mx - mn)
}

proof fn lemma_min_le_max(s: Seq<u64>, k: int)
    requires
        1 <= k <= s.len(),
    ensures
        min_pos_upto(s, k) <= max_upto(s, k),
        max_upto(s, k) >= 0,
    decreases k,
{
    assert(min_pos_upto(s, 0) == 0);
    if k > 1 {
        lemma_min_le_max(s, k - 1);
    }
}

/// Letter spread after ten steps.
pub fn part_1(pairs: Vec<u64>, letters: Vec<u64>, rules: &Vec<u8>) -> (r: Option<u64>)
    requires
        wf_state(pairs@, letters@, rules@),
    ensures
        match r {
            Some(v) => all_fits(pairs@, letters@, rules@, 10) && v as int == max_upto(
                letters_after(pairs@, letters@, rules@, 10),
                26,
            ) - min_pos_upto(letters_after(pairs@, letters@, rules@, 10), 26),
            None => !all_fits(pairs@, letters@, rules@, 10),
        },
{
    solve(pairs, letters, rules, 10)
}

/// Letter spread after forty steps.
pub fn part_2(pairs: Vec<u64>, letters: Vec<u64>, rules: &Vec<u8>) -> (r: Option<u64>)
    requires
        wf_state(pairs@, letters@, rules@),
    ensures
        match r {
            Some(v) => all_fits(pairs@, letters@, rules@, 40) && v as int == max_upto(
                letters_after(pairs@, letters@, rules@, 40),
                26,
            ) - min_pos_upto(letters_after(pairs@, letters@, rules@, 40), 26),
            None => !all_fits(pairs@, letters@, rules@, 40),
        },
{
    solve(pairs, letters, rules, 40)
}

} // verus!
