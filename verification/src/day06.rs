//! Exponential fish population, tracked as counts per spawn-timer value.

use vstd::prelude::*;

verus! {

/// One day passes: every timer shifts down, the fish at zero respawn at six
/// and each spawns a newcomer at eight.
pub open spec fn gen_step(s: Seq<int>) -> Seq<int> {
    seq![s[1], s[2], s[3], s[4], s[5], s[6], s[7] + s[0], s[8], s[0]]
}

/// The population after `n` days.
pub open spec fn gen_iter(s: Seq<int>, n: int) -> Seq<int>
    decreases n,
{
    if n <= 0 {
        s
    } else {
        gen_step(gen_iter(s, n - 1))
    }
}

/// Total number of fish.
pub open spec fn pop_sum(s: Seq<int>) -> int {
    s[0] + s[1] + s[2] + s[3] + s[4] + s[5] + s[6] + s[7] + s[8]
}

pub open spec fn all_nonneg(s: Seq<int>) -> bool {
    forall|i: int| 0 <= i < s.len() ==> #[trigger] s[i] >= 0
}

/// The timer counts as mathematical integers.
pub open spec fn as_ints(s: Seq<u64>) -> Seq<int> {
    Seq::new(s.len(), |i: int| s[i] as int)
}

/// Populations stay populations, and grow by the day's spawners.
proof fn lemma_step_sum(s: Seq<int>)
    requires
        s.len() == 9,
        all_nonneg(s),
    ensures
        gen_step(s).len() == 9,
        all_nonneg(gen_step(s)),
        pop_sum(gen_step(s)) == pop_sum(s) + s[0],
{
    let t = gen_step(s);
    assert forall|i: int| 0 <= i < t.len() implies #[trigger] t[i] >= 0 by {
        assert(t[0] == s[1] && t[1] == s[2] && t[2] == s[3] && t[3] == s[4] && t[4] == s[5] && t[5]
            == s[6] && t[6] == s[7] + s[0] && t[7] == s[8] && t[8] == s[0]);
        assert(s[0] >= 0 && s[1] >= 0 && s[2] >= 0 && s[3] >= 0 && s[4] >= 0 && s[5] >= 0 && s[6]
            >= 0 && s[7] >= 0 && s[8] >= 0);
    }
}

/// Day by day the population only grows.
proof fn lemma_iter_sum(s: Seq<int>, n: int)
    requires
        s.len() == 9,
        all_nonneg(s),
        n >= 0,
    ensures
        gen_iter(s, n).len() == 9,
        all_nonneg(gen_iter(s, n)),
        pop_sum(gen_iter(s, n)) >= pop_sum(s),
    decreases n,
{
    if n > 0 {
        lemma_iter_sum(s, n - 1);
        lemma_step_sum(gen_iter(s, n - 1));
    }
}

/// Runs the population for `gens` days and returns how many fish exist. The
/// final total must fit a `u64`; every intermediate total is no larger.
pub fn generate(input: Vec<u64>, gens: usize) -> (r: u64)
    requires
        input@.len() == 9,
        pop_sum(gen_iter(as_ints(input@), gens as int)) <= u64::MAX,
    ensures
        r as int == pop_sum(gen_iter(as_ints(input@), gens as int)),
{
    let ghost s0 = as_ints(input@);
    let mut cur = input;
    let mut day: usize = 0;
    proof {
        assert(all_nonneg(s0));
        assert(gen_iter(s0, 0) =~= s0);
    }
    while day < gens
        invariant
            0 <= day <= gens,
            cur@.len() == 9,
            s0.len() == 9,
            all_nonneg(s0),
            as_ints(cur@) =~= gen_iter(s0, day as int),
            pop_sum(gen_iter(s0, gens as int)) <= u64::MAX,
        decreases gens - day,
    {
        let ghost sk = as_ints(cur@);
        proof {
            lemma_iter_sum(s0, day as int);
            lemma_step_sum(sk);
            lemma_iter_sum(gen_step(sk), gens - day - 1);
            assert(gen_iter(gen_step(sk), gens - day - 1) =~= gen_iter(s0, gens as int)) by {
                lemma_iter_shift(s0, day as int, gens as int);
            }
            assert(pop_sum(gen_step(sk)) <= u64::MAX);
            assert(sk[7] + sk[0] <= pop_sum(gen_step(sk)));
        }
        let spawn = cur[0];
        let mut i: usize = 0;
        while i < 8
            invariant
                0 <= i <= 8,
                cur@.len() == 9,
                sk.len() == 9,
                spawn as int == sk[0],
                forall|j: int| 0 <= j < i ==> #[trigger] cur@[j] == sk[j + 1],
                forall|j: int| i <= j < 9 ==> #[trigger] cur@[j] == sk[j],
            decreases 8 - i,
        {
            let v = cur[i + 1];
            cur[i] = v;
            i = i + 1;
        }
        proof {
            assert(cur@[6] as int + spawn as int == sk[7] + sk[0]);
            assert(sk[7] + sk[0] <= u64::MAX);
            assert(sk[7] >= 0 && sk[0] >= 0) by {
                lemma_iter_sum(s0, day as int);
            }
        }
        let bumped = cur[6] + spawn;
        cur[6] = bumped;
        cur[8] = spawn;
        proof {
            assert(as_ints(cur@) =~= gen_step(sk));
            assert(gen_step(sk) =~= gen_iter(s0, day as int + 1));
        }
        day = day + 1;
    }
    proof {
        lemma_iter_sum(s0, gens as int);
        assert(pop_sum(as_ints(cur@)) == pop_sum(gen_iter(s0, gens as int)));
    }
    let mut total: u64 = 0;
    let mut i: usize = 0;
    let ghost fin = as_ints(cur@);
    while i < 9
        invariant
            0 <= i <= 9,
            cur@.len() == 9,
            fin =~= as_ints(cur@),
            all_nonneg(fin),
            pop_sum(fin) <= u64::MAX,
            total as int == partial_sum(fin, i as int),
        decreases 9 - i,
    {
        proof {
            lemma_partial_le(fin, i as int + 1);
        }
        total = total + cur[i];
        i = i + 1;
    }
    proof {
        lemma_partial_le(fin, 9);
    }
    total
}

/// Sum of the first `k` counters.
pub open spec fn partial_sum(s: Seq<int>, k: int) -> int
    decreases k,
{
    if k <= 0 {
        0
    } else {
        partial_sum(s, k - 1) + s[k - 1]
    }
}

/// A prefix of a population never outweighs the whole.
proof fn lemma_partial_le(s: Seq<int>, k: int)
    requires
        s.len() == 9,
        all_nonneg(s),
        0 <= k <= 9,
    ensures
        partial_sum(s, k) <= pop_sum(s),
        partial_sum(s, k) >= 0,
        partial_sum(s, 9) == pop_sum(s),
{
    assert(partial_sum(s, 0) == 0);
    assert(partial_sum(s, 1) == s[0]);
    assert(partial_sum(s, 2) == s[0] + s[1]);
    assert(partial_sum(s, 3) == partial_sum(s, 2) + s[2]);
    assert(partial_sum(s, 4) == partial_sum(s, 3) + s[3]);
    assert(partial_sum(s, 5) == partial_sum(s, 4) + s[4]);
    assert(partial_sum(s, 6) == partial_sum(s, 5) + s[5]);
    assert(partial_sum(s, 7) == partial_sum(s, 6) + s[6]);
    assert(partial_sum(s, 8) == partial_sum(s, 7) + s[7]);
    assert(partial_sum(s, 9) == partial_sum(s, 8) + s[8]);
}

/// Running one step later is the same as stepping the later iterate.
proof fn lemma_iter_shift(s: Seq<int>, k: int, n: int)
    requires
        0 <= k < n,
    ensures
        gen_iter(gen_step(gen_iter(s, k)), n - k - 1) == gen_iter(s, n),
    decreases n - k,
{
    if k + 1 == n {
        assert(gen_iter(s, n) == gen_step(gen_iter(s, n - 1)));
    } else {
        lemma_iter_shift(s, k, n - 1);
        assert(gen_iter(gen_step(gen_iter(s, k)), n - k - 1) == gen_step(
            gen_iter(gen_step(gen_iter(s, k)), n - k - 2),
        ));
    }
}

/// Fish after 80 days.
pub fn part_1(input: Vec<u64>) -> (r: u64)
    requires
        input@.len() == 9,
        pop_sum(gen_iter(as_ints(input@), 80)) <= u64::MAX,
    ensures
        r as int == pop_sum(gen_iter(as_ints(input@), 80)),
{
    generate(input, 80)
}

/// Fish after 256 days.
pub fn part_2(input: Vec<u64>) -> (r: u64)
    requires
        input@.len() == 9,
        pop_sum(gen_iter(as_ints(input@), 256)) <= u64::MAX,
    ensures
        r as int == pop_sum(gen_iter(as_ints(input@), 256)),
{
    generate(input, 256)
}

} // verus!
