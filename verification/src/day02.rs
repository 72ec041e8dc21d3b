//! Submarine steering commands.

use vstd::prelude::*;

verus! {

/// One steering command.
pub enum Command {
    Forward(u32),
    Down(u32),
    Up(u32),
}

/// Horizontal position after the commands: the sum of the forward amounts.
pub open spec fn fwd_sum(s: Seq<Command>) -> int
    decreases s.len(),
{
    if s.len() == 0 {
        0
    } else {
        fwd_sum(s.drop_last()) + (match s.last() {
            Command::Forward(x) => x as int,
            _ => 0,
        })
    }
}

/// Depth after the commands under the plain reading: down adds, up subtracts.
pub open spec fn depth_sum(s: Seq<Command>) -> int
    decreases s.len(),
{
    if s.len() == 0 {
        0
    } else {
        depth_sum(s.drop_last()) + (match s.last() {
            Command::Down(x) => x as int,
            Command::Up(x) => -(x as int),
            _ => 0,
        })
    }
}

/// Depth after the commands under the aimed reading: forward moves down by
/// the current aim times the amount.
pub open spec fn aimed_depth(s: Seq<Command>) -> int
    decreases s.len(),
{
    if s.len() == 0 {
        0
    } else {
        aimed_depth(s.drop_last()) + (match s.last() {
            Command::Forward(x) => depth_sum(s.drop_last()) * x,
            _ => 0,
        })
    }
}

/// Product of final position and final depth, plain reading. The depth may
/// never dip below zero along the way, and the totals must fit the machine.
pub fn part_1(input: &[Command]) -> (r: usize)
    requires
        forall|k: int|
            0 <= k <= input@.len() ==> 0 <= #[trigger] depth_sum(input@.take(k)) <= usize::MAX,
        forall|k: int| 0 <= k <= input@.len() ==> #[trigger] fwd_sum(input@.take(k)) <= usize::MAX,
        fwd_sum(input@) * depth_sum(input@) <= usize::MAX,
    ensures
        r == fwd_sum(input@) * depth_sum(input@),
{
    let mut pos: usize = 0;
    let mut depth: usize = 0;
    let mut i: usize = 0;
    while i < input.len()
        invariant
            0 <= i <= input@.len(),
            pos == fwd_sum(input@.take(i as int)),
            depth == depth_sum(input@.take(i as int)),
            forall|k: int|
                0 <= k <= input@.len() ==> 0 <= #[trigger] depth_sum(input@.take(k)) <= usize::MAX,
            forall|k: int|
                0 <= k <= input@.len() ==> #[trigger] fwd_sum(input@.take(k)) <= usize::MAX,
        decreases input@.len() - i,
    {
        proof {
            assert(input@.take(i + 1).drop_last() =~= input@.take(i as int));
            assert(depth_sum(input@.take(i + 1)) <= usize::MAX);
            assert(fwd_sum(input@.take(i + 1)) <= usize::MAX);
            assert(depth_sum(input@.take(i + 1)) >= 0);
        }
        match input[i] {
            Command::Forward(x) => {
                pos = pos + (x as usize);
            },
            Command::Down(x) => {
                depth = depth + (x as usize);
            },
            Command::Up(x) => {
                depth = depth - (x as usize);
            },
        }
        i = i + 1;
    }
    proof {
        assert(input@.take(input@.len() as int) =~= input@);
        vstd::arithmetic::mul::lemma_mul_nonnegative(fwd_sum(input@), depth_sum(input@));
    }
    pos * depth
}

/// Product of final position and final depth, aimed reading: down and up
/// steer the aim, forward moves and dives by aim times the amount.
pub fn part_2(input: &[Command]) -> (r: usize)
    requires
        forall|k: int|
            0 <= k <= input@.len() ==> 0 <= #[trigger] depth_sum(input@.take(k)) <= usize::MAX,
        forall|k: int| 0 <= k <= input@.len() ==> #[trigger] fwd_sum(input@.take(k)) <= usize::MAX,
        forall|k: int|
            0 <= k <= input@.len() ==> 0 <= #[trigger] aimed_depth(input@.take(k)) <= usize::MAX,
        fwd_sum(input@) * aimed_depth(input@) <= usize::MAX,
    ensures
        r == fwd_sum(input@) * aimed_depth(input@),
{
    let mut pos: usize = 0;
    let mut depth: usize = 0;
    let mut aim: usize = 0;
    let mut i: usize = 0;
    while i < input.len()
        invariant
            0 <= i <= input@.len(),
            pos == fwd_sum(input@.take(i as int)),
            aim == depth_sum(input@.take(i as int)),
            depth == aimed_depth(input@.take(i as int)),
            forall|k: int|
                0 <= k <= input@.len() ==> 0 <= #[trigger] depth_sum(input@.take(k)) <= usize::MAX,
            forall|k: int|
                0 <= k <= input@.len() ==> #[trigger] fwd_sum(input@.take(k)) <= usize::MAX,
            forall|k: int|
                0 <= k <= input@.len() ==> 0 <= #[trigger] aimed_depth(input@.take(k))
                    <= usize::MAX,
        decreases input@.len() - i,
    {
        proof {
            assert(input@.take(i + 1).drop_last() =~= input@.take(i as int));
            assert(depth_sum(input@.take(i + 1)) <= usize::MAX);
            assert(fwd_sum(input@.take(i + 1)) <= usize::MAX);
            assert(0 <= aimed_depth(input@.take(i + 1)) <= usize::MAX);
        }
        match input[i] {
            Command::Forward(x) => {
                proof {
                    vstd::arithmetic::mul::lemma_mul_nonnegative(
                        depth_sum(input@.take(i as int)),
                        x as int,
                    );
                }
                pos = pos + (x as usize);
                let add_depth = aim * (x as usize);
                depth = depth + add_depth;
            },
            Command::Down(x) => {
                aim = aim + (x as usize);
            },
            Command::Up(x) => {
                aim = aim - (x as usize);
            },
        }
        i = i + 1;
    }
    proof {
        assert(input@.take(input@.len() as int) =~= input@);
        vstd::arithmetic::mul::lemma_mul_nonnegative(fwd_sum(input@), aimed_depth(input@));
    }
    pos * depth
}

} // verus!
