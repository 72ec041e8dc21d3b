//! Counting increases in a depth report.

use vstd::prelude::*;

verus! {

/// Number of positions `i` in `1..s.len()` where `s[i] > s[i - 1]`.
pub open spec fn increase_count(s: Seq<usize>) -> nat
    decreases s.len(),
{
    if s.len() < 2 {
        0
    } else if s[s.len() - 1] > s[s.len() - 2] {
        increase_count(s.drop_last()) + 1
    } else {
        increase_count(s.drop_last())
    }
}

/// Sum of the window of three measurements starting at `i`.
pub open spec fn window_sum(s: Seq<usize>, i: int) -> int {
    s[i] + s[i + 1] + s[i + 2]
}

/// Number of positions where a three-measurement window sums to more than the
/// window right before it.
pub open spec fn window_increase_count(s: Seq<usize>) -> nat
    decreases s.len(),
{
    if s.len() < 4 {
        0
    } else if window_sum(s, s.len() - 3) > window_sum(s, s.len() - 4) {
        window_increase_count(s.drop_last()) + 1
    } else {
        window_increase_count(s.drop_last())
    }
}

/// How many measurements are larger than the one right before them.
pub fn part_1(input: &[usize]) -> (r: usize)
    ensures
        r == increase_count(input@),
{
    let mut count: usize = 0;
    let mut i: usize = 1;
    if input.len() < 2 {
        return 0;
    }
    while i < input.len()
        invariant
            1 <= i <= input@.len(),
            count == increase_count(input@.take(i as int)),
            count < i,
        decreases input@.len() - i,
    {
        assert(input@.take(i + 1).drop_last() =~= input@.take(i as int));
        if input[i] > input[i - 1] {
            count = count + 1;
        }
        i = i + 1;
    }
    assert(input@.take(input@.len() as int) =~= input@);
    count
}

/// How many three-measurement sliding windows sum to more than the window
/// right before them.
///
/// Two adjacent windows share their middle two measurements, so the later
/// window is larger exactly when the measurement it gains is larger than the
/// one it drops; the comparison never needs the sums themselves.
pub fn part_2(input: &[usize]) -> (r: usize)
    ensures
        r == window_increase_count(input@),
{
    let mut count: usize = 0;
    let mut i: usize = 3;
    if input.len() < 4 {
        assert(window_increase_count(input@) == 0);
        return 0;
    }
    while i < input.len()
        invariant
            3 <= i <= input@.len(),
            count == window_increase_count(input@.take(i as int)),
            count < i,
        decreases input@.len() - i,
    {
        assert(input@.take(i + 1).drop_last() =~= input@.take(i as int));
        if input[i] > input[i - 3] {
            count = count + 1;
        }
        i = i + 1;
    }
    assert(input@.take(input@.len() as int) =~= input@);
    count
}

} // verus!
