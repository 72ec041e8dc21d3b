//! Bracket matching: corrupted lines score by their first illegal closer,
//! incomplete lines by the closers still owed.

use vstd::prelude::*;

verus! {

pub open spec fn is_open(c: u8) -> bool {
    c == 40 || c == 91 || c == 123 || c == 60
}

/// The closer `c` matches the opener `o`.
pub open spec fn is_pair(o: u8, c: u8) -> bool {
    (o == 40 && c == 41) || (o == 91 && c == 93) || (o == 123 && c == 125) || (o == 60 && c == 62)
}

pub open spec fn illegal_points(c: u8) -> int {
    if c == 41 {
        3
    } else if c == 93 {
        57
    } else if c == 125 {
        1197
    } else if c == 62 {
        25137
    } else {
        0
    }
}

pub open spec fn context_points(o: u8) -> int {
    if o == 40 {
        1
    } else if o == 91 {
        2
    } else if o == 123 {
        3
    } else if o == 60 {
        4
    } else {
        0
    }
}

/// Runs the bracket machine from position `i` with the given stack of open
/// brackets: either the line is consumed (leaving the unclosed openers) or
/// an illegal closer is hit.
pub open spec fn run(line: Seq<u8>, i: int, stack: Seq<u8>) -> Result<Seq<u8>, u8>
    decreases line.len() - i,
{
    if i < 0 || i >= line.len() {
        Ok(stack)
    } else {
        let c = line[i];
        if is_open(c) {
            run(line, i + 1, stack.push(c))
        } else if stack.len() > 0 && is_pair(stack.last(), c) {
            run(line, i + 1, stack.drop_last())
        } else {
            Err(c)
        }
    }
}

/// Completion score of the owed closers: from the innermost opener outwards,
/// five times the running score plus the closer's points.
pub open spec fn completion(stack: Seq<u8>) -> int
    decreases stack.len(),
{
    if stack.len() == 0 {
        0
    } else {
        context_points(stack[0]) + 5 * completion(stack.subrange(1, stack.len() as int))
    }
}

proof fn lemma_completion_nonneg(stack: Seq<u8>)
    ensures
        completion(stack) >= 0,
    decreases stack.len(),
{
    if stack.len() > 0 {
        lemma_completion_nonneg(stack.subrange(1, stack.len() as int));
    }
}

/// Later suffixes of the stack owe no more than earlier ones.
proof fn lemma_completion_suffix(stack: Seq<u8>, j: int)
    requires
        0 <= j <= stack.len(),
    ensures
        completion(stack.subrange(j, stack.len() as int)) <= completion(stack),
        completion(stack.subrange(j, stack.len() as int)) >= 0,
    decreases j,
{
    lemma_completion_nonneg(stack.subrange(j, stack.len() as int));
    if j == 0 {
        assert(stack.subrange(0, stack.len() as int) =~= stack);
    }
    if j > 0 {
        lemma_completion_suffix(stack, j - 1);
        let a = stack.subrange(j - 1, stack.len() as int);
        assert(a.subrange(1, a.len() as int) =~= stack.subrange(j, stack.len() as int));
        assert(completion(a) == context_points(a[0]) + 5 * completion(
            stack.subrange(j, stack.len() as int),
        ));
        lemma_completion_nonneg(a);
    }
}

/// Whether a line's completion score fits the machine word.
pub open spec fn line_fits(line: Seq<u8>) -> bool {
    match run(line, 0, Seq::empty()) {
        Ok(stack) => completion(stack) <= u64::MAX,
        Err(_) => true,
    }
}

/// Compiles one line: the first illegal closer, or the completion score of
/// the closers still owed.
pub fn compile(line: &Vec<u8>) -> (r: Result<u64, u8>)
    requires
        line_fits(line@),
    ensures
        match r {
            Ok(s) => run(line@, 0, Seq::empty()) is Ok && s as int == completion(
                run(line@, 0, Seq::empty())->Ok_0,
            ),
            Err(c) => run(line@, 0, Seq::empty()) == Result::<Seq<u8>, u8>::Err(c),
        },
{
    let mut stack: Vec<u8> = Vec::new();
    let mut i: usize = 0;
    while i < line.len()
        invariant
            0 <= i <= line@.len(),
            run(line@, 0, Seq::empty()) == run(line@, i as int, stack@),
        decreases line@.len() - i,
    {
        let c = line[i];
        if c == 40 || c == 91 || c == 123 || c == 60 {
            stack.push(c);
        } else {
            if stack.len() == 0 {
                return Err(c);
            }
            let top = stack[stack.len() - 1];
            let ok = (top == 40 && c == 41) || (top == 91 && c == 93) || (top == 123 && c == 125)
                || (top == 60 && c == 62);
            if !ok {
                return Err(c);
            }
            let ghost pre = stack@;
            stack.pop();
            proof {
                assert(stack@ =~= pre.drop_last());
            }
        }
        i = i + 1;
    }
    let ghost full = stack@;
    proof {
        assert(run(line@, 0, Seq::empty()) == Result::<Seq<u8>, u8>::Ok(full));
        lemma_completion_suffix(full, 0);
        assert(full.subrange(0, full.len() as int) =~= full);
    }
    let mut points: u64 = 0;
    let mut j: usize = stack.len();
    while j > 0
        invariant
            0 <= j <= full.len(),
            stack@ == full,
            points as int == completion(full.subrange(j as int, full.len() as int)),
            completion(full) <= u64::MAX,
        decreases j,
    {
        proof {
            lemma_completion_suffix(full, j - 1);
            let a = full.subrange(j - 1, full.len() as int);
            assert(a.subrange(1, a.len() as int) =~= full.subrange(j as int, full.len() as int));
            assert(completion(a) == context_points(a[0]) + 5 * completion(
                full.subrange(j as int, full.len() as int),
            ));
            assert(a[0] == full[j - 1]);
        }
        let c = stack[j - 1];
        let pts: u64 = if c == 40 {
            1
        } else if c == 91 {
            2
        } else if c == 123 {
            3
        } else if c == 60 {
            4
        } else {
            0
        };
        points = 5 * points + pts;
        j = j - 1;
    }
    proof {
        assert(full.subrange(0, full.len() as int) =~= full);
    }
    Ok(points)
}

/// Total points of the first illegal closer of every corrupted line.
pub open spec fn syntax_points(lines: Seq<Seq<u8>>) -> int
    decreases lines.len(),
{
    if lines.len() == 0 {
        0
    } else {
        syntax_points(lines.drop_last()) + (match run(lines.last(), 0, Seq::empty()) {
            Ok(_) => 0,
            Err(c) => illegal_points(c),
        })
    }
}

proof fn lemma_syntax_points_mono(lines: Seq<Seq<u8>>)
    ensures
        syntax_points(lines) >= 0,
        lines.len() > 0 ==> syntax_points(lines.drop_last()) <= syntax_points(lines),
    decreases lines.len(),
{
    if lines.len() > 0 {
        lemma_syntax_points_mono(lines.drop_last());
    }
}

/// The lines as mathematical sequences.
pub open spec fn views_of(lines: Seq<Vec<u8>>) -> Seq<Seq<u8>> {
    lines.map_values(|l: Vec<u8>| l@)
}

/// Sum of the illegal-closer points over all corrupted lines.
pub fn part_1(input: &Vec<Vec<u8>>) -> (r: u64)
    requires
        forall|i: int| 0 <= i < input@.len() ==> line_fits((#[trigger] input@[i])@),
        syntax_points(views_of(input@)) <= u64::MAX,
    ensures
        r as int == syntax_points(views_of(input@)),
{
    let mut total: u64 = 0;
    let mut i: usize = 0;
    while i < input.len()
        invariant
            0 <= i <= input@.len(),
            forall|k: int| 0 <= k < input@.len() ==> line_fits((#[trigger] input@[k])@),
            syntax_points(views_of(input@)) <= u64::MAX,
            total as int == syntax_points(views_of(input@.take(i as int))),
        decreases input@.len() - i,
    {
        proof {
            assert(views_of(input@.take(i + 1)).drop_last() =~= views_of(input@.take(i as int)));
            assert(views_of(input@.take(i + 1)).last() == input@[i as int]@);
            lemma_syntax_take_le(input@, i + 1);
        }
        match compile(&input[i]) {
            Ok(_) => {},
            Err(c) => {
                let pts: u64 = if c == 41 {
                    3
                } else if c == 93 {
                    57
                } else if c == 125 {
                    1197
                } else if c == 62 {
                    25137
                } else {
                    0
                };
                total = total + pts;
            },
        }
        i = i + 1;
    }
    proof {
        assert(views_of(input@.take(input@.len() as int)) =~= views_of(input@));
    }
    total
}

/// Prefix sums never exceed the whole.
proof fn lemma_syntax_take_le(lines: Seq<Vec<u8>>, k: int)
    requires
        0 <= k <= lines.len(),
    ensures
        syntax_points(views_of(lines.take(k))) <= syntax_points(views_of(lines)),
        syntax_points(views_of(lines.take(k))) >= 0,
    decreases lines.len() - k,
{
    lemma_syntax_points_mono(views_of(lines.take(k)));
    if k < lines.len() {
        lemma_syntax_take_le(lines, k + 1);
        assert(views_of(lines.take(k + 1)).drop_last() =~= views_of(lines.take(k)));
        lemma_syntax_points_mono(views_of(lines.take(k + 1)));
    } else {
        assert(views_of(lines.take(k)) =~= views_of(lines));
    }
}

/// The completion scores of the incomplete lines, in input order. Under
/// `line_fits` the conversion is exact.
pub open spec fn completion_scores(lines: Seq<Seq<u8>>) -> Seq<u64>
    decreases lines.len(),
{
    if lines.len() == 0 {
        Seq::empty()
    } else {
        let rest = completion_scores(lines.drop_last());
        match run(lines.last(), 0, Seq::empty()) {
            Ok(stack) => rest.push(completion(stack) as u64),
            Err(_) => rest,
        }
    }
}

/// `m` is the middle element of the scores sorted ascending.
pub open spec fn is_middle_score(m: u64, scores: Seq<u64>) -> bool {
    exists|s: Seq<u64>|
        #![trigger crate::sorting::is_ascending(s)]
        crate::sorting::is_ascending(s) && s.to_multiset() == scores.to_multiset() && s.len()
            == scores.len() && m == s[scores.len() as int / 2]
}

/// The middle completion score of the incomplete lines.
pub fn part_2(input: &Vec<Vec<u8>>) -> (r: Option<u64>)
    requires
        forall|i: int| 0 <= i < input@.len() ==> line_fits((#[trigger] input@[i])@),
    ensures
        match r {
            Some(m) => is_middle_score(m, completion_scores(views_of(input@))),
            None => completion_scores(views_of(input@)).len() == 0,
        },
{
    let mut scores: Vec<u64> = Vec::new();
    let mut i: usize = 0;
    while i < input.len()
        invariant
            0 <= i <= input@.len(),
            forall|k: int| 0 <= k < input@.len() ==> line_fits((#[trigger] input@[k])@),
            scores@ =~= completion_scores(views_of(input@.take(i as int))),
        decreases input@.len() - i,
    {
        proof {
            assert(views_of(input@.take(i + 1)).drop_last() =~= views_of(input@.take(i as int)));
            assert(views_of(input@.take(i + 1)).last() == input@[i as int]@);
        }
        match compile(&input[i]) {
            Ok(s) => {
                scores.push(s);
                proof {
                    assert(scores@ =~= completion_scores(views_of(input@.take(i + 1))));
                }
            },
            Err(_) => {},
        }
        i = i + 1;
    }
    proof {
        assert(views_of(input@.take(input@.len() as int)) =~= views_of(input@));
    }
    if scores.len() == 0 {
        return None;
    }
    let n = scores.len();
    let ghost orig = scores@;
    let sorted = crate::sorting::sorted_u64s(scores);
    proof {
        assert(sorted@.to_multiset().len() == sorted@.len()) by {
            sorted@.to_multiset_ensures();
        }
        assert(orig.to_multiset().len() == orig.len()) by {
            orig.to_multiset_ensures();
        }
        assert(sorted@.len() == orig.len());
        assert(crate::sorting::is_ascending(sorted@));
    }
    Some(sorted[n / 2])
}

} // verus!
